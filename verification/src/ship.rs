//! The craft: a two-point rigid-rod body under policy-network control.
//!
//! Each step has three phases, every one a no-op once the craft is dead:
//! `do_brain` turns the observation of the craft and the target into
//! thruster commands through the network, `simulate` advances the two
//! endpoints by a position-based integrator and projects them back onto
//! the rod constraint, and `update_score` accumulates the regret-style
//! cost.  Every phase is pinned to an exact spec-level definition.

use vstd::prelude::*;
use crate::fx::{
    abs_i, clamp_spec, fxmul, fxmul_spec, mul_div, tdiv, FX_BOUND, HALF_FX, SCALE,
};
use crate::net::{
    forward_spec, net_wf, neural_net, row_view, set_input_spec, NetError, NetV, new_spec,
};
use crate::rng::Entropy;
use crate::trig::{atan2_spec, cos_spec, sin_spec, HALF_PI_FX};
use crate::vec2::{v2_add, v2_len, v2_norm, v2_scale, v2_sub, v2_within, V2, V2V};

verus! {

/// Positions of a live craft stay within this coordinate band (64 world
/// units), far inside the fixed-point multiplier's domain.
pub const POS_LIMIT: i64 = 67108864;

/// Gravity per step (0.002 world units, downward).
pub const GRAV_FX: i64 = 2097;

/// Thrust per step at full throttle (0.005 world units).
pub const THRUST_FX: i64 = 5243;

/// The rod's rest length: one world unit.
pub const REST_FX: i64 = 1048576;

/// A craft whose first endpoint leaves this radius (10 world units) dies.
pub const DEATH_RADIUS_FX: i64 = 10485760;

/// Scores saturate at this magnitude; unreachable under the step and
/// distance bounds, it only closes the integer range.
pub const SCORE_LIMIT: i64 = 36028797018963968;

/// A recorded best distance is never above this bound.
pub const BEST_LIMIT: i64 = 1073741824;

/// Largest admitted reset jitter amplitude (8 world units).
pub const SPREAD_LIMIT: i64 = 8388608;

/// The craft's full state.
pub struct Ship {
    pub pos1: V2,
    pub pos2: V2,
    pub pos_1_last: V2,
    pub pos_2_last: V2,
    pub angle1: i64,
    pub angle2: i64,
    pub throttle1: i64,
    pub throttle2: i64,
    pub best_distance: Option<i64>,
    pub score: i64,
    pub dead: bool,
    pub neural_net: neural_net,
}

/// The mathematical value of a craft.
pub ghost struct ShipV {
    pub pos1: V2V,
    pub pos2: V2V,
    pub pos1_last: V2V,
    pub pos2_last: V2V,
    pub angle1: int,
    pub angle2: int,
    pub throttle1: int,
    pub throttle2: int,
    pub best_distance: Option<int>,
    pub score: int,
    pub dead: bool,
    pub net: NetV,
}

impl View for Ship {
    type V = ShipV;

    open spec fn view(&self) -> ShipV {
        ShipV {
            pos1: self.pos1@,
            pos2: self.pos2@,
            pos1_last: self.pos_1_last@,
            pos2_last: self.pos_2_last@,
            angle1: self.angle1 as int,
            angle2: self.angle2 as int,
            throttle1: self.throttle1 as int,
            throttle2: self.throttle2 as int,
            best_distance: match self.best_distance {
                Option::Some(d) => Option::Some(d as int),
                Option::None => Option::None,
            },
            score: self.score as int,
            dead: self.dead,
            net: self.neural_net@,
        }
    }
}

/// Well-formedness of a craft: the network is well formed with the fixed
/// observation and command widths, and while the craft is alive all of
/// its transient state stays in its representable band.  A dead craft is
/// frozen, so only its network is constrained.
pub open spec fn ship_wf(s: ShipV) -> bool {
    &&& net_wf(s.net)
    &&& s.net.sizes[0] == 10
    &&& s.net.sizes[s.net.sizes.len() - 1] == 4
    &&& !s.dead ==> {
        &&& v2_within(s.pos1, POS_LIMIT as int)
        &&& v2_within(s.pos2, POS_LIMIT as int)
        &&& v2_within(s.pos1_last, POS_LIMIT as int)
        &&& v2_within(s.pos2_last, POS_LIMIT as int)
        &&& abs_i(s.angle1) <= SCALE
        &&& abs_i(s.angle2) <= SCALE
        &&& 0 <= s.throttle1 <= SCALE
        &&& 0 <= s.throttle2 <= SCALE
    }
    &&& abs_i(s.score) <= SCORE_LIMIT
    &&& (s.best_distance matches Some(d) ==> 0 <= d <= BEST_LIMIT)
}

/// The canonical fresh state around a given network: endpoints half a
/// unit either side of the origin, everything transient zeroed.
pub open spec fn base_ship(net: NetV) -> ShipV {
    ShipV {
        pos1: V2V { x: HALF_FX as int, y: 0 },
        pos2: V2V { x: -HALF_FX as int, y: 0 },
        pos1_last: V2V { x: HALF_FX as int, y: 0 },
        pos2_last: V2V { x: -HALF_FX as int, y: 0 },
        angle1: 0,
        angle2: 0,
        throttle1: 0,
        throttle2: 0,
        best_distance: Option::None,
        score: 0,
        dead: false,
        net: net,
    }
}

/// The layer sizes every craft's network is built on.
pub open spec fn ship_topology() -> Seq<int> {
    seq![10int, 4int]
}

/// What `Ship::new` builds from a random state: the canonical state
/// around a freshly drawn ten-by-four network.
pub open spec fn ship_new_spec(s0: u64) -> (ShipV, u64) {
    let n = new_spec(ship_topology(), s0);
    (base_ship(n.0), n.1)
}

/// The jittered restart state: both endpoints shifted by one shared
/// offset drawn from `[-spread/2, spread/2]` in each axis, all transient
/// state cleared, the network kept.
pub open spec fn reset_spec(s: ShipV, spread: int, s0: u64) -> (ShipV, u64) {
    let s1 = crate::rng::xs_step(s0);
    let xd = fxmul_spec(crate::rng::unit_of(s1) - HALF_FX, spread);
    let s2 = crate::rng::xs_step(s1);
    let yd = fxmul_spec(crate::rng::unit_of(s2) - HALF_FX, spread);
    let p1 = V2V { x: HALF_FX + xd, y: yd };
    let p2 = V2V { x: -HALF_FX + xd, y: yd };
    (
        ShipV {
            pos1: p1,
            pos2: p2,
            pos1_last: p1,
            pos2_last: p2,
            angle1: 0,
            angle2: 0,
            throttle1: 0,
            throttle2: 0,
            best_distance: Option::None,
            score: 0,
            dead: false,
            net: s.net,
        },
        s2,
    )
}

/// The observation vector: body angle, offset to the target, angular
/// velocity, midpoint velocity, and four zeroed feedback slots.
pub open spec fn obs_inputs(s: ShipV, goal: V2V) -> Seq<int> {
    let nrm = v2_norm(v2_sub(s.pos1, s.pos2));
    let sa = atan2_spec(nrm.y, nrm.x);
    let nrml = v2_norm(v2_sub(s.pos1_last, s.pos2_last));
    let sal = atan2_spec(nrml.y, nrml.x);
    let center = v2_scale(v2_add(s.pos1, s.pos2), HALF_FX as int);
    let centerl = v2_scale(v2_add(s.pos1_last, s.pos2_last), HALF_FX as int);
    seq![
        sa,
        goal.x - center.x,
        goal.y - center.y,
        sa - sal,
        center.x - centerl.x,
        center.y - centerl.y,
        0,
        0,
        0,
        0,
    ]
}

/// One inference pass: feed the observation, propagate, and map the four
/// outputs to throttles (used raw) and thruster angles (recentred from
/// `[0, 1]` to `[-1, 1]`).  A dead craft is left untouched.
pub open spec fn do_brain_spec(s: ShipV, goal: V2V) -> ShipV {
    if s.dead {
        s
    } else {
        let net1 = forward_spec(set_input_spec(s.net, obs_inputs(s, goal)));
        let out = net1.values[net1.values.len() - 1];
        ShipV {
            throttle1: out[0],
            throttle2: out[1],
            angle1: 2 * (out[2] - HALF_FX),
            angle2: 2 * (out[3] - HALF_FX),
            net: net1,
            ..s
        }
    }
}

/// The world-space thrust direction for a commanded angle.
pub open spec fn dir_vec(angle: int) -> V2V {
    V2V { x: sin_spec(angle), y: -cos_spec(angle) }
}

/// One endpoint's position-based update: keep the velocity, add gravity
/// and the thrust acceleration.
pub open spec fn integrate_spec(pos: V2V, last: V2V, angle: int, throttle: int) -> V2V {
    v2_add(
        pos,
        v2_add(
            v2_add(v2_sub(pos, last), V2V { x: 0, y: GRAV_FX as int }),
            v2_scale(dir_vec(angle), fxmul_spec(throttle, THRUST_FX as int)),
        ),
    )
}

/// The rod projection: each endpoint moves by half the length error along
/// the connecting axis, so the midpoint is preserved; a degenerate zero
/// separation is left untouched.
pub open spec fn constrain_spec(p1: V2V, p2: V2V) -> (V2V, V2V) {
    let d = v2_sub(p2, p1);
    let dist = v2_len(d);
    if dist == 0 {
        (p1, p2)
    } else {
        let cx = tdiv(d.x * (dist - REST_FX), 2 * dist);
        let cy = tdiv(d.y * (dist - REST_FX), 2 * dist);
        (V2V { x: p1.x + cx, y: p1.y + cy }, V2V { x: p2.x - cx, y: p2.y - cy })
    }
}

/// One full physics step: orient, integrate both endpoints, project onto
/// the rod, store the pre-step snapshot, and mark the craft dead when the
/// first endpoint leaves the play radius.  A dead craft is left untouched.
pub open spec fn simulate_spec(s: ShipV) -> ShipV {
    if s.dead {
        s
    } else {
        let nrm = v2_norm(v2_sub(s.pos1, s.pos2));
        let orient = atan2_spec(nrm.y, nrm.x) - HALF_PI_FX;
        let p1r = integrate_spec(s.pos1, s.pos1_last, s.angle1 - orient, s.throttle1);
        let p2r = integrate_spec(s.pos2, s.pos2_last, s.angle2 - orient, s.throttle2);
        let pp = constrain_spec(p1r, p2r);
        ShipV {
            pos1: pp.0,
            pos2: pp.1,
            pos1_last: s.pos1,
            pos2_last: s.pos2,
            dead: v2_len(pp.0) > DEATH_RADIUS_FX,
            ..s
        }
    }
}

/// The scoring rule on one observed midpoint distance: the first
/// observation only records a best; afterwards the score always moves by
/// the distance relative to the best so far, and the best only improves.
pub open spec fn score_step(score: int, best: Option<int>, d: int) -> (int, Option<int>) {
    match best {
        Option::None => (score, Option::Some(d)),
        Option::Some(b) => if d < b {
            (clamp_spec(score - (b - d), -SCORE_LIMIT as int, SCORE_LIMIT as int), Option::Some(d))
        } else {
            (clamp_spec(score + (d - b), -SCORE_LIMIT as int, SCORE_LIMIT as int), best)
        },
    }
}

/// One scoring update from the craft's own midpoint distance to the world
/// origin.  A dead craft is left untouched.
pub open spec fn update_score_spec(s: ShipV) -> ShipV {
    if s.dead {
        s
    } else {
        let mid = v2_scale(v2_add(s.pos1, s.pos2), HALF_FX as int);
        let d = v2_len(mid);
        let r = score_step(s.score, s.best_distance, d);
        ShipV { score: r.0, best_distance: r.1, ..s }
    }
}


impl Ship {
    /// A fresh craft in the canonical state with a newly drawn network.
    pub fn new(e: &mut Entropy) -> (r: Ship)
        ensures
            r@ == ship_new_spec(old(e)@).0,
            final(e)@ == ship_new_spec(old(e)@).1,
            ship_wf(r@),
    {
        let mut sizes: Vec<u32> = Vec::new();
        sizes.push(10u32);
        sizes.push(4u32);
        proof {
            assert(crate::net::sizes_view(sizes@) =~= ship_topology());
        }
        let nn = neural_net::new(sizes, e);
        match nn {
            Result::Ok(n) => Ship {
                pos1: V2 { x: HALF_FX, y: 0 },
                pos2: V2 { x: -HALF_FX, y: 0 },
                pos_1_last: V2 { x: HALF_FX, y: 0 },
                pos_2_last: V2 { x: -HALF_FX, y: 0 },
                angle1: 0,
                angle2: 0,
                throttle1: 0,
                throttle2: 0,
                best_distance: Option::None,
                score: 0,
                dead: false,
                neural_net: n,
            },
            Result::Err(_) => vstd::pervasive::unreached(),
        }
    }

    /// An exact copy of the craft, network included.
    pub fn duplicate(&self) -> (r: Ship)
        ensures
            r@ == self@,
    {
        Ship {
            pos1: self.pos1,
            pos2: self.pos2,
            pos_1_last: self.pos_1_last,
            pos_2_last: self.pos_2_last,
            angle1: self.angle1,
            angle2: self.angle2,
            throttle1: self.throttle1,
            throttle2: self.throttle2,
            best_distance: self.best_distance,
            score: self.score,
            dead: self.dead,
            neural_net: self.neural_net.duplicate(),
        }
    }

    /// A child craft: the first parent's state with the uniform crossover
    /// of the two parents' networks; fails with `TopologyMismatch` when
    /// the parents' shapes differ, leaving the random source untouched.
    pub fn new_from_two(first: &Ship, second: &Ship, e: &mut Entropy) -> (r: Result<
        Ship,
        NetError,
    >)
        requires
            ship_wf(first@),
            ship_wf(second@),
        ensures
            first@.net.sizes != second@.net.sizes ==> ((r matches Err(er) && er
                == NetError::TopologyMismatch) && final(e)@ == old(e)@),
            first@.net.sizes == second@.net.sizes ==> (r matches Ok(s) && s@ == (ShipV {
                net: crate::net::mix_spec(first@.net, second@.net, old(e)@).0,
                ..first@
            }) && final(e)@ == crate::net::mix_spec(first@.net, second@.net, old(e)@).1
                && ship_wf(s@)),
    {
        let nn = first.neural_net.mix_randomly_with_other(&second.neural_net, e);
        match nn {
            Result::Ok(n) => Result::Ok(
                Ship {
                    pos1: first.pos1,
                    pos2: first.pos2,
                    pos_1_last: first.pos_1_last,
                    pos_2_last: first.pos_2_last,
                    angle1: first.angle1,
                    angle2: first.angle2,
                    throttle1: first.throttle1,
                    throttle2: first.throttle2,
                    best_distance: first.best_distance,
                    score: first.score,
                    dead: first.dead,
                    neural_net: n,
                },
            ),
            Result::Err(er) => Result::Err(er),
        }
    }

    /// A mutated offspring: the canonical fresh state around an additive
    /// mutation of this craft's network.
    pub fn clone_for_mutation(&self, lr: i64, e: &mut Entropy) -> (r: Ship)
        requires
            ship_wf(self@),
            0 <= lr <= SCALE,
        ensures
            r@ == base_ship(crate::net::mutate_spec(self@.net, lr as int, old(e)@).0),
            final(e)@ == crate::net::mutate_spec(self@.net, lr as int, old(e)@).1,
            ship_wf(r@),
    {
        let n = self.neural_net.clone_mutated(lr, e);
        Ship {
            pos1: V2 { x: HALF_FX, y: 0 },
            pos2: V2 { x: -HALF_FX, y: 0 },
            pos_1_last: V2 { x: HALF_FX, y: 0 },
            pos_2_last: V2 { x: -HALF_FX, y: 0 },
            angle1: 0,
            angle2: 0,
            throttle1: 0,
            throttle2: 0,
            best_distance: Option::None,
            score: 0,
            dead: false,
            neural_net: n,
        }
    }

    /// Restart the craft: both endpoints shifted by one jitter offset
    /// drawn from `[-spread/2, spread/2]` per axis, all transient state
    /// cleared, the network kept.
    pub fn reset(&mut self, spread: i64, e: &mut Entropy)
        requires
            ship_wf(old(self)@),
            0 <= spread <= SPREAD_LIMIT,
        ensures
            final(self)@ == reset_spec(old(self)@, spread as int, old(e)@).0,
            final(e)@ == reset_spec(old(self)@, spread as int, old(e)@).1,
            final(self)@.net == old(self)@.net,
            ship_wf(final(self)@),
    {
        let u1 = e.next_unit();
        let xd = fxmul(u1 - HALF_FX, spread);
        let u2 = e.next_unit();
        let yd = fxmul(u2 - HALF_FX, spread);
        proof {
            assert(abs_i(xd as int) <= spread as int && abs_i(yd as int) <= spread as int)
                by (nonlinear_arith)
                requires
                    abs_i(xd as int) == abs_i((u1 - HALF_FX) as int) * (spread as int) / (
                    SCALE as int),
                    abs_i(yd as int) == abs_i((u2 - HALF_FX) as int) * (spread as int) / (
                    SCALE as int),
                    abs_i((u1 - HALF_FX) as int) <= SCALE as int,
                    abs_i((u2 - HALF_FX) as int) <= SCALE as int,
                    0 <= spread as int,
                    SCALE == 1048576,
            ;
        }
        self.pos1 = V2 { x: HALF_FX + xd, y: yd };
        self.pos2 = V2 { x: -HALF_FX + xd, y: yd };
        self.pos_1_last = V2 { x: HALF_FX + xd, y: yd };
        self.pos_2_last = V2 { x: -HALF_FX + xd, y: yd };
        self.angle1 = 0;
        self.angle2 = 0;
        self.throttle1 = 0;
        self.throttle2 = 0;
        self.dead = false;
        self.score = 0;
        self.best_distance = Option::None;
    }
}


impl Ship {
    /// The scoring rule itself, on one observed distance: usable with a
    /// scripted distance sequence, bypassing the physics.
    pub fn apply_score(score: i64, best: Option<i64>, d: i64) -> (r: (i64, Option<i64>))
        requires
            abs_i(score as int) <= SCORE_LIMIT,
            0 <= d <= BEST_LIMIT,
            best matches Some(b) ==> 0 <= b <= BEST_LIMIT,
        ensures
            (r.0 as int, match r.1 {
                Option::Some(b) => Option::Some(b as int),
                Option::None => Option::<int>::None,
            }) == score_step(
                score as int,
                match best {
                    Option::Some(b) => Option::Some(b as int),
                    Option::None => Option::<int>::None,
                },
                d as int,
            ),
    {
        match best {
            Option::None => (score, Option::Some(d)),
            Option::Some(b) => {
                if d < b {
                    (crate::fx::clamp(score - (b - d), -SCORE_LIMIT, SCORE_LIMIT), Option::Some(d))
                } else {
                    (crate::fx::clamp(score + (d - b), -SCORE_LIMIT, SCORE_LIMIT), Option::Some(b))
                }
            },
        }
    }

    /// One full interactive step against an externally supplied target:
    /// inference, physics, scoring, exactly the batch evaluator's
    /// per-craft step.
    pub fn step_with_target(&mut self, goal: &V2)
        requires
            ship_wf(old(self)@),
            v2_within(goal@, POS_LIMIT as int),
        ensures
            final(self)@ == update_score_spec(simulate_spec(do_brain_spec(old(self)@, goal@))),
            old(self)@.dead ==> final(self)@ == old(self)@,
            ship_wf(final(self)@),
    {
        self.do_brain(goal);
        self.simulate();
        self.update_score();
    }

    /// One inference pass, exactly `do_brain_spec`; a dead craft keeps
    /// every observable field unchanged.
    #[verifier::rlimit(60)]
    pub fn do_brain(&mut self, goal: &V2)
        requires
            ship_wf(old(self)@),
            v2_within(goal@, POS_LIMIT as int),
        ensures
            final(self)@ == do_brain_spec(old(self)@, goal@),
            old(self)@.dead ==> final(self)@ == old(self)@,
            ship_wf(final(self)@),
    {
        if self.dead {
            return;
        }
        let diff = self.pos1.subtracted(&self.pos2);
        let nrm = diff.normalized();
        let sa = crate::trig::atan2_fx(nrm.y, nrm.x);
        let diffl = self.pos_1_last.subtracted(&self.pos_2_last);
        let nrml = diffl.normalized();
        let sal = crate::trig::atan2_fx(nrml.y, nrml.x);
        let csum = self.pos1.added(&self.pos2);
        let center = csum.multiplied(HALF_FX);
        let csuml = self.pos_1_last.added(&self.pos_2_last);
        let centerl = csuml.multiplied(HALF_FX);
        proof {
            assert(abs_i(center@.x) <= POS_LIMIT && abs_i(center@.y) <= POS_LIMIT && abs_i(
                centerl@.x,
            ) <= POS_LIMIT && abs_i(centerl@.y) <= POS_LIMIT) by (nonlinear_arith)
                requires
                    abs_i(center@.x) == abs_i(csum@.x) * (HALF_FX as int) / (SCALE as int),
                    abs_i(center@.y) == abs_i(csum@.y) * (HALF_FX as int) / (SCALE as int),
                    abs_i(centerl@.x) == abs_i(csuml@.x) * (HALF_FX as int) / (SCALE as int),
                    abs_i(centerl@.y) == abs_i(csuml@.y) * (HALF_FX as int) / (SCALE as int),
                    abs_i(csum@.x) <= 2 * POS_LIMIT,
                    abs_i(csum@.y) <= 2 * POS_LIMIT,
                    abs_i(csuml@.x) <= 2 * POS_LIMIT,
                    abs_i(csuml@.y) <= 2 * POS_LIMIT,
                    HALF_FX == 524288,
                    SCALE == 1048576,
                    POS_LIMIT == 67108864,
            ;
        }
        let mut inputs: Vec<i64> = Vec::new();
        inputs.push(sa);
        inputs.push(goal.x - center.x);
        inputs.push(goal.y - center.y);
        inputs.push(sa - sal);
        inputs.push(center.x - centerl.x);
        inputs.push(center.y - centerl.y);
        inputs.push(0);
        inputs.push(0);
        inputs.push(0);
        inputs.push(0);
        proof {
            assert(row_view(inputs@) =~= obs_inputs(old(self)@, goal@));
        }
        self.neural_net.set_first_layer(inputs);
        self.neural_net.forward_propagate();
        let out = self.neural_net.get_last_layer();
        proof {
            let net1 = self.neural_net@;
            assert(out@.len() == 4);
            assert(row_view(out@)[0] == net1.values[net1.values.len() - 1][0]);
            assert(row_view(out@)[1] == net1.values[net1.values.len() - 1][1]);
            assert(row_view(out@)[2] == net1.values[net1.values.len() - 1][2]);
            assert(row_view(out@)[3] == net1.values[net1.values.len() - 1][3]);
            assert(0 <= out@[0] <= SCALE && 0 <= out@[1] <= SCALE && 0 <= out@[2] <= SCALE && 0
                <= out@[3] <= SCALE);
        }
        self.throttle1 = out[0];
        self.throttle2 = out[1];
        self.angle1 = 2 * (out[2] - HALF_FX);
        self.angle2 = 2 * (out[3] - HALF_FX);
    }

    /// One scoring update, exactly `update_score_spec`; a dead craft
    /// keeps every observable field unchanged.
    pub fn update_score(&mut self)
        requires
            ship_wf(old(self)@),
        ensures
            final(self)@ == update_score_spec(old(self)@),
            old(self)@.dead ==> final(self)@ == old(self)@,
            ship_wf(final(self)@),
    {
        if self.dead {
            return;
        }
        let msum = self.pos1.added(&self.pos2);
        let mid = msum.multiplied(HALF_FX);
        proof {
            assert(abs_i(mid@.x) <= POS_LIMIT && abs_i(mid@.y) <= POS_LIMIT) by (nonlinear_arith)
                requires
                    abs_i(mid@.x) == abs_i(msum@.x) * (HALF_FX as int) / (SCALE as int),
                    abs_i(mid@.y) == abs_i(msum@.y) * (HALF_FX as int) / (SCALE as int),
                    abs_i(msum@.x) <= 2 * POS_LIMIT,
                    abs_i(msum@.y) <= 2 * POS_LIMIT,
                    HALF_FX == 524288,
                    SCALE == 1048576,
                    POS_LIMIT == 67108864,
            ;
        }
        let d = mid.length();
        proof {
            assert((d as int) * (d as int) <= 2 * (POS_LIMIT as int) * (POS_LIMIT as int)
                ==> d <= BEST_LIMIT) by (nonlinear_arith)
                requires
                    0 <= d as int,
                    POS_LIMIT == 67108864,
                    BEST_LIMIT == 1073741824,
            ;
            assert((d as int) * (d as int) <= 2 * (POS_LIMIT as int) * (POS_LIMIT as int))
                by (nonlinear_arith)
                requires
                    crate::fx::is_isqrt(mid@.x * mid@.x + mid@.y * mid@.y, d as int),
                    abs_i(mid@.x) <= POS_LIMIT as int,
                    abs_i(mid@.y) <= POS_LIMIT as int,
            ;
        }
        match self.best_distance {
            Option::None => {
                self.best_distance = Option::Some(d);
            },
            Option::Some(best) => {
                if d < best {
                    self.best_distance = Option::Some(d);
                    self.score = crate::fx::clamp(
                        self.score - (best - d),
                        -SCORE_LIMIT,
                        SCORE_LIMIT,
                    );
                } else {
                    self.score = crate::fx::clamp(
                        self.score + (d - best),
                        -SCORE_LIMIT,
                        SCORE_LIMIT,
                    );
                }
            },
        }
    }

    /// One physics step, exactly `simulate_spec`; a dead craft keeps
    /// every observable field unchanged.
    #[verifier::rlimit(100)]
    pub fn simulate(&mut self)
        requires
            ship_wf(old(self)@),
        ensures
            final(self)@ == simulate_spec(old(self)@),
            old(self)@.dead ==> final(self)@ == old(self)@,
            ship_wf(final(self)@),
            final(self)@.net == old(self)@.net,
    {
        if self.dead {
            return;
        }
        let temp1 = self.pos1;
        let temp2 = self.pos2;
        let diff = self.pos1.subtracted(&self.pos2);
        let nrm = diff.normalized();
        let sa = crate::trig::atan2_fx(nrm.y, nrm.x);
        let orient = sa - HALF_PI_FX;
        let real1 = self.angle1 - orient;
        let real2 = self.angle2 - orient;
        let ghost t1v = self@.throttle1;
        let ghost t2v = self@.throttle2;
        let th1 = fxmul(self.throttle1, THRUST_FX);
        let th2 = fxmul(self.throttle2, THRUST_FX);
        let dir1 = V2 { x: crate::trig::sin_fx(real1), y: -crate::trig::cos_fx(real1) };
        let dir2 = V2 { x: crate::trig::sin_fx(real2), y: -crate::trig::cos_fx(real2) };
        let acc1 = dir1.multiplied(th1);
        let acc2 = dir2.multiplied(th2);
        proof {
            assert(abs_i(acc1@.x) <= THRUST_FX && abs_i(acc1@.y) <= THRUST_FX && abs_i(acc2@.x)
                <= THRUST_FX && abs_i(acc2@.y) <= THRUST_FX) by (nonlinear_arith)
                requires
                    abs_i(acc1@.x) == abs_i(dir1@.x) * abs_i(th1 as int) / (SCALE as int),
                    abs_i(acc1@.y) == abs_i(dir1@.y) * abs_i(th1 as int) / (SCALE as int),
                    abs_i(acc2@.x) == abs_i(dir2@.x) * abs_i(th2 as int) / (SCALE as int),
                    abs_i(acc2@.y) == abs_i(dir2@.y) * abs_i(th2 as int) / (SCALE as int),
                    abs_i(dir1@.x) <= SCALE as int,
                    abs_i(dir1@.y) <= SCALE as int,
                    abs_i(dir2@.x) <= SCALE as int,
                    abs_i(dir2@.y) <= SCALE as int,
                    abs_i(th1 as int) <= THRUST_FX as int,
                    abs_i(th2 as int) <= THRUST_FX as int,
                    SCALE == 1048576,
            ;
            assert(abs_i(th1 as int) <= THRUST_FX as int && abs_i(th2 as int) <= THRUST_FX as int)
                by (nonlinear_arith)
                requires
                    abs_i(th1 as int) == abs_i(t1v) * (THRUST_FX as int) / (SCALE as int),
                    abs_i(th2 as int) == abs_i(t2v) * (THRUST_FX as int) / (SCALE as int),
                    0 <= t1v <= SCALE as int,
                    0 <= t2v <= SCALE as int,
                    SCALE == 1048576,
                    THRUST_FX == 5243,
            ;
        }
        let vel1 = self.pos1.subtracted(&self.pos_1_last);
        let grav = V2 { x: 0, y: GRAV_FX };
        let p1r = self.pos1.added(&vel1.added(&grav).added(&acc1));
        let vel2 = self.pos2.subtracted(&self.pos_2_last);
        let p2r = self.pos2.added(&vel2.added(&grav).added(&acc2));
        let d = p2r.subtracted(&p1r);
        let dist = d.length();
        let mut p1c = p1r;
        let mut p2c = p2r;
        if dist != 0 {
            proof {
                assert((dist as int) < FX_BOUND as int) by (nonlinear_arith)
                    requires
                        crate::fx::is_isqrt(d@.x * d@.x + d@.y * d@.y, dist as int),
                        abs_i(d@.x) <= 8 * POS_LIMIT as int,
                        abs_i(d@.y) <= 8 * POS_LIMIT as int,
                        POS_LIMIT == 67108864,
                        FX_BOUND == 1073741824,
                ;
            }
            let cx = mul_div(d.x, dist - REST_FX, 2 * dist);
            let cy = mul_div(d.y, dist - REST_FX, 2 * dist);
            p1c = V2 { x: p1r.x + cx, y: p1r.y + cy };
            p2c = V2 { x: p2r.x - cx, y: p2r.y - cy };
            proof {
                crate::fx::lemma_tdiv_range(d@.x * ((dist as int) - REST_FX), 2 * (dist as int));
                crate::fx::lemma_tdiv_range(d@.y * ((dist as int) - REST_FX), 2 * (dist as int));
                assert(abs_i(d@.x - 2 * (cx as int)) <= REST_FX + 4 && abs_i(
                    d@.y - 2 * (cy as int),
                ) <= REST_FX + 4) by (nonlinear_arith)
                    requires
                        1 <= dist as int,
                        abs_i(d@.x) <= dist as int,
                        abs_i(d@.y) <= dist as int,
                        d@.x * ((dist as int) - REST_FX) - 2 * (dist as int) < 2 * (dist as int) * (
                        cx as int),
                        2 * (dist as int) * (cx as int) < d@.x * ((dist as int) - REST_FX) + 2 * (
                        dist as int),
                        d@.y * ((dist as int) - REST_FX) - 2 * (dist as int) < 2 * (dist as int) * (
                        cy as int),
                        2 * (dist as int) * (cy as int) < d@.y * ((dist as int) - REST_FX) + 2 * (
                        dist as int),
                        REST_FX == 1048576,
                ;
            }
        } else {
            proof {
                assert(d@.x == 0 && d@.y == 0) by (nonlinear_arith)
                    requires
                        crate::fx::is_isqrt(d@.x * d@.x + d@.y * d@.y, 0),
                ;
            }
        }
        self.pos1 = p1c;
        self.pos2 = p2c;
        self.pos_1_last = temp1;
        self.pos_2_last = temp2;
        let l1 = self.pos1.length();
        if l1 > DEATH_RADIUS_FX {
            self.dead = true;
        }
    }
}

} // verus!
