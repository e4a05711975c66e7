use evocraft::evaluate::{goal_for_step, iterate_raw, rollout_shard};
use evocraft::evolve::do_ship_mutation;
use evocraft::fx::SCALE;
use evocraft::rng::Entropy;
use evocraft::ship::Ship;
use evocraft::vec2::V2;

fn dist_units(a: V2, b: V2) -> f64 {
    let dx = (a.x - b.x) as f64 / SCALE as f64;
    let dy = (a.y - b.y) as f64 / SCALE as f64;
    (dx * dx + dy * dy).sqrt()
}

fn same_net(a: &Ship, b: &Ship) -> bool {
    let na = &a.neural_net;
    let nb = &b.neural_net;
    if na.weight_layer_count() != nb.weight_layer_count() {
        return false;
    }
    for li in 0..na.weight_layer_count() {
        if na.weight_count(li) != nb.weight_count(li) {
            return false;
        }
        for j in 0..na.weight_count(li) {
            if na.weight_at(li, j) != nb.weight_at(li, j) {
                return false;
            }
        }
    }
    true
}

#[test]
fn constraint_exactness_after_one_step() {
    let mut e = Entropy::from_seed(21);
    for (x1, y1, x2, y2) in [
        (2 * SCALE, 0, -2 * SCALE, 0),
        (SCALE, SCALE, -SCALE, -SCALE),
        (SCALE / 4, 0, -SCALE / 4, 0),
        (3 * SCALE, SCALE / 2, SCALE, -SCALE / 3),
    ] {
        let mut s = Ship::new(&mut e);
        s.pos1 = V2::new(x1, y1);
        s.pos2 = V2::new(x2, y2);
        s.pos_1_last = V2::new(x1, y1);
        s.pos_2_last = V2::new(x2, y2);
        s.simulate();
        let d = dist_units(s.pos1, s.pos2);
        assert!((d - 1.0).abs() < 1e-4, "separation {} after projection", d);
    }
}

#[test]
fn score_regret_on_a_scripted_sequence() {
    let mut score: i64 = 0;
    let mut best: Option<i64> = None;
    let mut contributions = Vec::new();
    for d in [5 * SCALE, 3 * SCALE, 4 * SCALE, 2 * SCALE] {
        let before = score;
        let r = Ship::apply_score(score, best, d);
        score = r.0;
        best = r.1;
        contributions.push(score - before);
    }
    assert_eq!(contributions, vec![0, -2 * SCALE, SCALE, -SCALE]);
    assert_eq!(score, -2 * SCALE);
    assert_eq!(best, Some(2 * SCALE));
}

#[test]
fn selection_elitism() {
    let mut e = Entropy::from_seed(33);
    let mut ships: Vec<Ship> = Vec::new();
    let scores = [9i64, 3, 7, 1, 5, 0, 8, 2, 6, 4];
    for k in 0..10 {
        let mut s = Ship::new(&mut e);
        s.score = scores[k] * SCALE;
        ships.push(s);
    }
    // the five lowest scores are 0..4; remember their owners' networks
    let mut expected: Vec<&Ship> = Vec::new();
    for want in 0..5i64 {
        for s in &ships {
            if s.score == want * SCALE {
                expected.push(s);
            }
        }
    }
    let elites: Vec<Ship> = expected.iter().map(|s| (*s).duplicate()).collect();
    do_ship_mutation(&mut ships, 0, 52429, &mut e);
    assert_eq!(ships.len(), 10);
    for k in 0..5 {
        assert!(same_net(&ships[k], &elites[k]), "elite {} was not carried over", k);
    }
}

#[test]
fn death_freeze() {
    let mut e = Entropy::from_seed(5);
    let mut s = Ship::new(&mut e);
    s.pos1 = V2::new(11 * SCALE, 0);
    s.pos2 = V2::new(11 * SCALE - SCALE, 0);
    s.pos_1_last = s.pos1;
    s.pos_2_last = s.pos2;
    s.simulate();
    assert!(s.dead);
    let frozen = s.duplicate();
    let goal = V2::new(SCALE, SCALE);
    for _ in 0..3 {
        s.step_with_target(&goal);
        s.do_brain(&goal);
        s.simulate();
        s.update_score();
    }
    assert!(s.dead);
    assert_eq!(s.pos1, frozen.pos1);
    assert_eq!(s.pos2, frozen.pos2);
    assert_eq!(s.pos_1_last, frozen.pos_1_last);
    assert_eq!(s.pos_2_last, frozen.pos_2_last);
    assert_eq!(s.angle1, frozen.angle1);
    assert_eq!(s.angle2, frozen.angle2);
    assert_eq!(s.throttle1, frozen.throttle1);
    assert_eq!(s.throttle2, frozen.throttle2);
    assert_eq!(s.score, frozen.score);
    assert_eq!(s.best_distance, frozen.best_distance);
}

#[test]
fn determinism_given_fixed_randomness() {
    let run = || {
        let mut e = Entropy::from_seed(4242);
        let mut ships: Vec<Ship> = (0..6).map(|_| Ship::new(&mut e)).collect();
        iterate_raw(&mut ships, 8, SCALE, 52429, 0, 2, &mut e);
        ships
    };
    let a = run();
    let b = run();
    assert_eq!(a.len(), b.len());
    for k in 0..a.len() {
        assert!(same_net(&a[k], &b[k]), "weights diverged at craft {}", k);
        assert_eq!(a[k].score, b[k].score);
        assert_eq!(a[k].pos1, b[k].pos1);
    }
}

#[test]
fn scripted_target_walks_a_circle_in_both_directions() {
    let g0 = goal_for_step(0, 100, SCALE, true);
    assert_eq!(g0.x, 0);
    assert!((g0.y - SCALE).abs() <= 2);
    let fwd = goal_for_step(1, 100, SCALE, true);
    let back = goal_for_step(1, 100, SCALE, false);
    assert_eq!(fwd.x, -back.x);
    assert!((fwd.y - back.y).abs() <= 2);
    assert!(fwd.x != 0);
}

#[test]
fn parallel_rollout_matches_a_sequential_replay() {
    // One craft, one worker: the merged population is exactly the rolled
    // shard, and the returned average is that craft's rolled score.
    let steps = 6usize;
    let spread = SCALE;
    let mut e = Entropy::from_seed(99);
    let ship = Ship::new(&mut e);

    let mut replay = ship.duplicate();
    for t in 0..steps {
        let goal = goal_for_step(t, steps, spread, true);
        replay.step_with_target(&goal);
    }

    let mut pop = vec![ship.duplicate()];
    let mut e2 = e;
    let avg = iterate_raw(&mut pop, steps, spread, 52429, 0, 1, &mut e2);
    assert!(replay.score != 0, "the rollout should accumulate score");
    assert_eq!(avg, replay.score);

    // And the shard rollout itself agrees with the same replay.
    let rolled = rollout_shard(vec![ship.duplicate()], steps, spread, true);
    assert_eq!(rolled.len(), 1);
    assert_eq!(rolled[0].score, replay.score);
    assert_eq!(rolled[0].pos1, replay.pos1);
    assert_eq!(rolled[0].best_distance, replay.best_distance);
}

#[test]
fn reset_applies_a_shared_bounded_jitter() {
    let mut e = Entropy::from_seed(17);
    let mut s = Ship::new(&mut e);
    s.score = 3 * SCALE;
    s.dead = true;
    s.reset(2 * SCALE, &mut e);
    assert!(!s.dead);
    assert_eq!(s.score, 0);
    assert_eq!(s.best_distance, None);
    assert_eq!(s.pos1.x - s.pos2.x, SCALE);
    assert_eq!(s.pos1.y, s.pos2.y);
    assert_eq!(s.pos1, s.pos_1_last);
    assert_eq!(s.pos2, s.pos_2_last);
    assert!((s.pos1.x - SCALE / 2).abs() <= SCALE);
    assert!(s.pos1.y.abs() <= SCALE);
}

#[test]
fn population_pass_keeps_size_and_revives_everyone() {
    let mut e = Entropy::from_seed(55);
    let mut ships: Vec<Ship> = (0..5).map(|_| Ship::new(&mut e)).collect();
    iterate_raw(&mut ships, 4, SCALE / 2, 52429, 1, 2, &mut e);
    assert_eq!(ships.len(), 5);
    for s in &ships {
        assert!(!s.dead);
        assert_eq!(s.score, 0);
        assert_eq!(s.best_distance, None);
    }
}
