use evocraft::fx::SCALE;
use evocraft::net::{neural_net, NetError};
use evocraft::rng::Entropy;
use evocraft::trig::{atan2_fx, cos_fx, sin_fx, HALF_PI_FX, TWO_PI_FX};
use evocraft::vec2::V2;

fn net_weights(n: &neural_net) -> Vec<Vec<i64>> {
    let mut out = Vec::new();
    for li in 0..n.weight_layer_count() {
        let mut row = Vec::new();
        for j in 0..n.weight_count(li) {
            row.push(n.weight_at(li, j));
        }
        out.push(row);
    }
    out
}

#[test]
fn network_shape_invariant() {
    let mut e = Entropy::from_seed(7);
    let n = neural_net::new(vec![10, 4], &mut e).unwrap();
    assert_eq!(n.weight_layer_count(), 1);
    assert_eq!(n.weight_count(0), (10 + 1) * 4);

    let m = neural_net::new(vec![3, 5, 2], &mut e).unwrap();
    assert_eq!(m.weight_layer_count(), 2);
    assert_eq!(m.weight_count(0), (3 + 1) * 5);
    assert_eq!(m.weight_count(1), (5 + 1) * 2);
}

#[test]
fn invalid_topology_is_refused() {
    let mut e = Entropy::from_seed(7);
    let r = neural_net::new(vec![5], &mut e);
    assert_eq!(r.unwrap_err(), NetError::InvalidTopology);
}

#[test]
fn crossover_is_true_mix() {
    let mut e = Entropy::from_seed(11);
    let a = neural_net::new(vec![10, 4], &mut e).unwrap();
    let b = neural_net::new(vec![10, 4], &mut e).unwrap();
    let c = a.mix_randomly_with_other(&b, &mut e).unwrap();
    let wa = net_weights(&a);
    let wb = net_weights(&b);
    let wc = net_weights(&c);
    let mut from_a = 0;
    let mut from_b = 0;
    for li in 0..wc.len() {
        for j in 0..wc[li].len() {
            let w = wc[li][j];
            assert!(w == wa[li][j] || w == wb[li][j]);
            if w == wa[li][j] {
                from_a += 1;
            } else {
                from_b += 1;
            }
        }
    }
    assert!(from_a > 0 && from_b > 0);
}

#[test]
fn crossover_topology_mismatch_is_refused() {
    let mut e = Entropy::from_seed(11);
    let a = neural_net::new(vec![10, 4], &mut e).unwrap();
    let b = neural_net::new(vec![10, 6], &mut e).unwrap();
    let r = a.mix_randomly_with_other(&b, &mut e);
    assert_eq!(r.unwrap_err(), NetError::TopologyMismatch);
}

#[test]
fn mutation_bound() {
    let mut e = Entropy::from_seed(13);
    let a = neural_net::new(vec![10, 4], &mut e).unwrap();
    let lr: i64 = 52429;
    let m = a.clone_mutated(lr, &mut e);
    let wa = net_weights(&a);
    let wm = net_weights(&m);
    for li in 0..wa.len() {
        for j in 0..wa[li].len() {
            let d = wm[li][j] - wa[li][j];
            assert!(-lr / 2 <= d && d <= lr / 2);
        }
    }
}

#[test]
fn sigmoid_values() {
    assert_eq!(evocraft::net::sigmoid(0), SCALE / 2);
    assert!(evocraft::net::sigmoid(10 * SCALE) > SCALE - 200);
    assert!(evocraft::net::sigmoid(-10 * SCALE) < 200);
    for x in [-5 * SCALE, -SCALE, 0, SCALE, 5 * SCALE] {
        let s = evocraft::net::sigmoid(x);
        assert!(0 <= s && s <= SCALE);
    }
}

#[test]
fn vector_length_is_exact_on_a_pythagorean_triple() {
    let v = V2::new(3 * SCALE, 4 * SCALE);
    assert_eq!(v.length(), 5 * SCALE);
}

#[test]
fn trig_values() {
    assert_eq!(sin_fx(0), 0);
    assert!((sin_fx(HALF_PI_FX) - SCALE).abs() <= 2);
    assert!((cos_fx(0) - SCALE).abs() <= 2);
    assert_eq!(atan2_fx(0, SCALE), 0);
    assert!((atan2_fx(SCALE, 0) - HALF_PI_FX).abs() <= 2);
    let a = 123456;
    assert_eq!(sin_fx(a + TWO_PI_FX), sin_fx(a));
    let approx = sin_fx(a) as f64 / SCALE as f64;
    let real = (a as f64 / SCALE as f64).sin();
    assert!((approx - real).abs() < 0.005);
}
