//! The evolution engine: sort by score, keep the elite half, refill the
//! rest from power-law-sampled parents by mutation and optional
//! crossover, then reset every craft to fresh starting conditions.

use vstd::prelude::*;
use crate::fx::SCALE;
use crate::net::{mix_spec, mutate_spec};
use crate::rng::{coin_of, sq_below_of, xs_step, Entropy};
use crate::ship::{
    base_ship, reset_spec, ship_topology, ship_wf, Ship, ShipV, SPREAD_LIMIT,
};

verus! {

/// Ascending order by score.
pub open spec fn sorted_by_score(s: Seq<ShipV>) -> bool {
    forall|i: int, j: int| 0 <= i < j < s.len() ==> s[i].score <= s[j].score
}

/// Insert one craft into a score-sorted sequence, after any craft with
/// the same score (a stable insertion).
pub open spec fn insert_sorted(s: Seq<ShipV>, x: ShipV) -> Seq<ShipV>
    decreases s.len(),
{
    if s.len() == 0 {
        seq![x]
    } else if x.score < s.last().score {
        insert_sorted(s.drop_last(), x).push(s.last())
    } else {
        s.push(x)
    }
}

/// Stable insertion sort, ascending by score.
pub open spec fn sort_spec(s: Seq<ShipV>) -> Seq<ShipV>
    decreases s.len(),
{
    if s.len() == 0 {
        Seq::<ShipV>::empty()
    } else {
        insert_sorted(sort_spec(s.drop_last()), s.last())
    }
}

/// Inserting keeps sortedness, the multiset of crafts, and the length.
pub proof fn lemma_insert_sorted_props(s: Seq<ShipV>, x: ShipV)
    requires
        sorted_by_score(s),
    ensures
        sorted_by_score(insert_sorted(s, x)),
        insert_sorted(s, x).to_multiset() == s.to_multiset().insert(x),
        insert_sorted(s, x).len() == s.len() + 1,
    decreases s.len(),
{
    broadcast use vstd::seq_lib::group_seq_properties;

    if s.len() == 0 {
        assert(seq![x] =~= Seq::<ShipV>::empty().push(x));
        Seq::<ShipV>::empty().to_multiset_ensures();
        assert(insert_sorted(s, x).to_multiset() =~= s.to_multiset().insert(x));
    } else if x.score < s.last().score {
        assert(sorted_by_score(s.drop_last()));
        lemma_insert_sorted_props(s.drop_last(), x);
        let pre = insert_sorted(s.drop_last(), x);
        pre.to_multiset_ensures();
        s.drop_last().to_multiset_ensures();
        assert(s =~= s.drop_last().push(s.last()));
        assert(pre.push(s.last()).to_multiset() =~= s.to_multiset().insert(x));
        assert forall|i: int, j: int|
            0 <= i < j < pre.push(s.last()).len() implies pre.push(s.last())[i].score <= pre.push(
            s.last(),
        )[j].score by {
            if j < pre.len() {
            } else {
                assert(pre.to_multiset().contains(pre[i]));
                if pre.to_multiset().count(pre[i]) > 0 {
                    if s.drop_last().to_multiset().count(pre[i]) > 0 {
                        let k = choose|k: int|
                            0 <= k < s.drop_last().len() && s.drop_last()[k] == pre[i];
                        assert(s[k] == pre[i]);
                        assert(pre[i].score <= s.last().score);
                    } else {
                        assert(pre[i] == x);
                    }
                }
            }
        }
    } else {
        s.to_multiset_ensures();
        assert forall|i: int, j: int|
            0 <= i < j < s.push(x).len() implies s.push(x)[i].score <= s.push(x)[j].score by {
            if j < s.len() {
            } else {
                if i < s.len() {
                    if s.len() > 0 {
                        assert(s[i].score <= s.last().score);
                    }
                }
            }
        }
    }
}

/// The sort is a sorted permutation of its input.
pub proof fn lemma_sort_spec_props(s: Seq<ShipV>)
    ensures
        sorted_by_score(sort_spec(s)),
        sort_spec(s).to_multiset() == s.to_multiset(),
        sort_spec(s).len() == s.len(),
    decreases s.len(),
{
    if s.len() == 0 {
        assert(s =~= Seq::<ShipV>::empty());
    } else {
        lemma_sort_spec_props(s.drop_last());
        lemma_insert_sorted_props(sort_spec(s.drop_last()), s.last());
        s.drop_last().to_multiset_ensures();
        assert(s =~= s.drop_last().push(s.last()));
        assert(s.to_multiset() =~= s.drop_last().to_multiset().insert(s.last()));
    }
}

/// Refill a sorted population back to `n` crafts: sample a parent index
/// biased toward the elite end, mutate its network; half the time sample
/// and mutate a second parent and cross the two networks.
pub open spec fn fill_spec(base: Seq<ShipV>, cur: Seq<ShipV>, n: nat, lr: int, s0: u64) -> (
    Seq<ShipV>,
    u64,
)
    decreases n - cur.len(),
{
    if cur.len() >= n {
        (cur, s0)
    } else {
        let s1 = xs_step(s0);
        let idx = sq_below_of(s1, n as int);
        let m1 = mutate_spec(base[idx].net, lr, s1);
        let ship1 = base_ship(m1.0);
        let s3 = xs_step(m1.1);
        if coin_of(s3) {
            let s4 = xs_step(s3);
            let idx2 = sq_below_of(s4, n as int);
            let m2 = mutate_spec(base[idx2].net, lr, s4);
            let mm = mix_spec(ship1.net, base_ship(m2.0).net, m2.1);
            fill_spec(base, cur.push(ShipV { net: mm.0, ..ship1 }), n, lr, mm.1)
        } else {
            fill_spec(base, cur.push(ship1), n, lr, s3)
        }
    }
}

/// The first `k` crafts reset in order, threading the random source.
pub open spec fn reset_pref(pop: Seq<ShipV>, spread: int, k: nat, s0: u64) -> (Seq<ShipV>, u64)
    decreases k,
{
    if k == 0 {
        (Seq::<ShipV>::empty(), s0)
    } else {
        let pre = reset_pref(pop, spread, (k - 1) as nat, s0);
        let r = reset_spec(pop[k - 1], spread, pre.1);
        (pre.0.push(r.0), r.1)
    }
}

/// One full selection-and-reproduction pass: sort ascending by score,
/// carry the first half over unchanged, refill the rest, and reset every
/// craft's transient state.
pub open spec fn mutation_spec(pop: Seq<ShipV>, spread: int, lr: int, s0: u64) -> (
    Seq<ShipV>,
    u64,
)
    recommends
        pop.len() >= 1,
{
    let sorted = sort_spec(pop);
    let n = pop.len();
    let elites = sorted.take((n / 2) as int);
    let filled = fill_spec(sorted, elites, n, lr, s0);
    reset_pref(filled.0, spread, n, filled.1)
}

/// Refilling only appends: the crafts already present are kept in place.
pub proof fn lemma_fill_prefix(base: Seq<ShipV>, cur: Seq<ShipV>, n: nat, lr: int, s0: u64)
    requires
        cur.len() <= n,
    ensures
        fill_spec(base, cur, n, lr, s0).0.len() == n,
        forall|i: int|
            0 <= i < cur.len() ==> #[trigger] fill_spec(base, cur, n, lr, s0).0[i] == cur[i],
    decreases n - cur.len(),
{
    if cur.len() < n {
        let s1 = xs_step(s0);
        let idx = sq_below_of(s1, n as int);
        let m1 = mutate_spec(base[idx].net, lr, s1);
        let ship1 = base_ship(m1.0);
        let s3 = xs_step(m1.1);
        if coin_of(s3) {
            let s4 = xs_step(s3);
            let idx2 = sq_below_of(s4, n as int);
            let m2 = mutate_spec(base[idx2].net, lr, s4);
            let mm = mix_spec(ship1.net, base_ship(m2.0).net, m2.1);
            lemma_fill_prefix(base, cur.push(ShipV { net: mm.0, ..ship1 }), n, lr, mm.1);
        } else {
            lemma_fill_prefix(base, cur.push(ship1), n, lr, s3);
        }
    }
}

/// Resetting keeps each craft's network.
pub proof fn lemma_reset_pref_nets(pop: Seq<ShipV>, spread: int, k: nat, s0: u64)
    requires
        k <= pop.len(),
    ensures
        reset_pref(pop, spread, k, s0).0.len() == k,
        forall|i: int|
            0 <= i < k ==> (#[trigger] reset_pref(pop, spread, k, s0).0[i]).net == pop[i].net,
    decreases k,
{
    if k > 0 {
        lemma_reset_pref_nets(pop, spread, (k - 1) as nat, s0);
    }
}


/// The mathematical value of a population.
pub open spec fn pop_view(v: Seq<Ship>) -> Seq<ShipV> {
    v.map_values(|sh: Ship| sh@)
}

/// Every craft well formed and built on the common topology.
pub open spec fn pop_wf(p: Seq<ShipV>) -> bool {
    forall|i: int|
        0 <= i < p.len() ==> ship_wf(#[trigger] p[i]) && p[i].net.sizes == ship_topology()
}

/// A stable insertion lands exactly at the first index, scanning from
/// the end, whose predecessor does not score above the new craft.
proof fn lemma_insert_sorted_at(s: Seq<ShipV>, x: ShipV, idx: int)
    requires
        sorted_by_score(s),
        0 <= idx <= s.len(),
        forall|k: int| idx <= k < s.len() ==> (#[trigger] s[k]).score > x.score,
        idx > 0 ==> s[idx - 1].score <= x.score,
    ensures
        insert_sorted(s, x) == s.insert(idx, x),
    decreases s.len(),
{
    if s.len() == 0 {
        assert(insert_sorted(s, x) =~= s.insert(0, x));
    } else if idx == s.len() {
        assert(insert_sorted(s, x) =~= s.insert(idx, x));
    } else {
        assert(s[s.len() - 1].score > x.score);
        let dl = s.drop_last();
        assert(sorted_by_score(dl));
        assert forall|k: int| idx <= k < dl.len() implies (#[trigger] dl[k]).score > x.score by {
            assert(dl[k] == s[k]);
        }
        lemma_insert_sorted_at(dl, x, idx);
        assert(insert_sorted(dl, x).push(s.last()) =~= s.insert(idx, x));
    }
}

/// A score-sorted copy of the population, by stable insertion.
fn sorted_copy(ships: &Vec<Ship>) -> (r: Vec<Ship>)
    requires
        pop_wf(pop_view(ships@)),
    ensures
        pop_view(r@) == sort_spec(pop_view(ships@)),
        pop_wf(pop_view(r@)),
        r@.len() == ships@.len(),
{
    let ghost popv = pop_view(ships@);
    let mut r: Vec<Ship> = Vec::new();
    let mut i: usize = 0;
    while i < ships.len()
        invariant
            i <= ships@.len(),
            popv == pop_view(ships@),
            pop_wf(popv),
            pop_view(r@) == sort_spec(popv.take(i as int)),
            sorted_by_score(pop_view(r@)),
            pop_wf(pop_view(r@)),
            r@.len() == i,
        decreases ships@.len() - i,
    {
        let x = ships[i].duplicate();
        let mut idx: usize = r.len();
        while idx > 0 && r[idx - 1].score > x.score
            invariant
                idx <= r@.len(),
                x@ == popv[i as int],
                i < popv.len(),
                forall|k: int|
                    idx <= k < r@.len() ==> (#[trigger] pop_view(r@)[k]).score > x@.score,
            decreases idx,
        {
            proof {
                assert(pop_view(r@)[idx - 1] == r@[idx - 1]@);
            }
            idx = idx - 1;
        }
        let ghost rv = pop_view(r@);
        proof {
            if idx > 0 {
                assert(rv[idx as int - 1] == r@[idx as int - 1]@);
            }
            lemma_insert_sorted_at(rv, x@, idx as int);
            lemma_insert_sorted_props(rv, x@);
        }
        r.insert(idx, x);
        proof {
            assert(pop_view(r@) =~= rv.insert(idx as int, x@));
            assert(popv.take(i as int + 1).drop_last() =~= popv.take(i as int));
            assert(popv.take(i as int + 1).last() == x@);
            assert(pop_view(r@) == sort_spec(popv.take(i as int + 1)));
            assert forall|k: int| 0 <= k < pop_view(r@).len() implies ship_wf(
                #[trigger] pop_view(r@)[k],
            ) && pop_view(r@)[k].net.sizes == ship_topology() by {
                if k < idx {
                    assert(pop_view(r@)[k] == rv[k]);
                } else if k == idx {
                    assert(pop_view(r@)[k] == x@);
                } else {
                    assert(pop_view(r@)[k] == rv[k - 1]);
                }
            }
        }
        i = i + 1;
    }
    proof {
        assert(popv.take(i as int) =~= popv);
    }
    r
}

/// One evolution pass over the population: sort ascending by score, keep
/// the elite half unchanged, refill the rest by power-law parent
/// sampling with mutation and optional crossover, then reset every craft
/// to fresh starting conditions.  The crafts that end in the elite
/// positions carry exactly the networks of the best-scoring half.
pub fn do_ship_mutation(ships: &mut Vec<Ship>, spread: i64, lr: i64, e: &mut Entropy)
    requires
        1 <= old(ships)@.len() <= 0x10_0000,
        pop_wf(pop_view(old(ships)@)),
        0 <= spread <= SPREAD_LIMIT,
        0 <= lr <= SCALE,
    ensures
        pop_view(final(ships)@) == mutation_spec(
            pop_view(old(ships)@),
            spread as int,
            lr as int,
            old(e)@,
        ).0,
        final(e)@ == mutation_spec(pop_view(old(ships)@), spread as int, lr as int, old(e)@).1,
        final(ships)@.len() == old(ships)@.len(),
        pop_wf(pop_view(final(ships)@)),
        forall|i: int|
            0 <= i < old(ships)@.len() / 2 ==> (#[trigger] pop_view(final(ships)@)[i]).net
                == sort_spec(pop_view(old(ships)@))[i].net,
{
    let ghost pop0 = pop_view(old(ships)@);
    let ghost s0 = old(e)@;
    let n = ships.len();
    let sorted = sorted_copy(ships);
    let ghost sortedv = pop_view(sorted@);
    proof {
        lemma_sort_spec_props(pop0);
    }
    let half = n / 2;
    let mut newv: Vec<Ship> = Vec::new();
    let mut i: usize = 0;
    while i < half
        invariant
            i <= half,
            half == n / 2,
            n == sorted@.len(),
            sortedv == pop_view(sorted@),
            pop_wf(sortedv),
            newv@.len() == i,
            pop_view(newv@) == sortedv.take(i as int),
            pop_wf(pop_view(newv@)),
        decreases half - i,
    {
        let ghost prev = pop_view(newv@);
        newv.push(sorted[i].duplicate());
        proof {
            assert(pop_view(newv@) =~= prev.push(sortedv[i as int]));
            assert(pop_view(newv@) =~= sortedv.take(i as int + 1));
        }
        i = i + 1;
    }
    let ghost elites = sortedv.take((n / 2) as int);
    let ghost sfill0 = e@;
    proof {
        assert(pop_view(newv@) == elites);
    }
    while newv.len() < n
        invariant
            newv@.len() <= n,
            1 <= n <= 0x10_0000,
            n == sorted@.len(),
            sortedv == pop_view(sorted@),
            pop_wf(sortedv),
            pop_wf(pop_view(newv@)),
            fill_spec(sortedv, pop_view(newv@), n as nat, lr as int, e@) == fill_spec(
                sortedv,
                elites,
                n as nat,
                lr as int,
                sfill0,
            ),
            0 <= lr <= SCALE,
        decreases n - newv@.len(),
    {
        let ghost cur = pop_view(newv@);
        let ghost snow = e@;
        let idx = e.next_sq_below(n);
        let ship1 = sorted[idx].clone_for_mutation(lr, e);
        let coin = e.next_coin();
        if coin {
            let idx2 = e.next_sq_below(n);
            let ship2 = sorted[idx2].clone_for_mutation(lr, e);
            proof {
                assert(ship1@.net.sizes == ship_topology());
                assert(ship2@.net.sizes == ship_topology());
            }
            let child = Ship::new_from_two(&ship1, &ship2, e);
            match child {
                Result::Ok(c) => {
                    let ghost cv = c@;
                    newv.push(c);
                    proof {
                        assert(pop_view(newv@) =~= cur.push(cv));
                        assert(fill_spec(sortedv, cur, n as nat, lr as int, snow) == fill_spec(
                            sortedv,
                            pop_view(newv@),
                            n as nat,
                            lr as int,
                            e@,
                        ));
                    }
                },
                Result::Err(_) => {
                    proof {
                        assert(false);
                    }
                },
            }
        } else {
            let ghost sv = ship1@;
            newv.push(ship1);
            proof {
                assert(pop_view(newv@) =~= cur.push(sv));
                assert(fill_spec(sortedv, cur, n as nat, lr as int, snow) == fill_spec(
                    sortedv,
                    pop_view(newv@),
                    n as nat,
                    lr as int,
                    e@,
                ));
            }
        }
    }
    let ghost filledv = pop_view(newv@);
    proof {
        assert(fill_spec(sortedv, filledv, n as nat, lr as int, e@).0 == filledv);
        assert(filledv == fill_spec(sortedv, elites, n as nat, lr as int, sfill0).0);
        assert(e@ == fill_spec(sortedv, elites, n as nat, lr as int, sfill0).1);
    }
    let ghost sreset0 = e@;
    let mut out: Vec<Ship> = Vec::new();
    let mut j: usize = 0;
    while j < newv.len()
        invariant
            j <= newv@.len(),
            newv@.len() == n,
            filledv == pop_view(newv@),
            pop_wf(filledv),
            out@.len() == j,
            pop_view(out@) == reset_pref(filledv, spread as int, j as nat, sreset0).0,
            e@ == reset_pref(filledv, spread as int, j as nat, sreset0).1,
            pop_wf(pop_view(out@)),
            0 <= spread <= SPREAD_LIMIT,
        decreases newv@.len() - j,
    {
        let ghost prev = pop_view(out@);
        let mut sh = newv[j].duplicate();
        proof {
            assert(sh@ == filledv[j as int]);
        }
        sh.reset(spread, e);
        let ghost shv = sh@;
        out.push(sh);
        proof {
            assert(pop_view(out@) =~= prev.push(shv));
            assert(shv.net == filledv[j as int].net);
            assert forall|k: int| 0 <= k < pop_view(out@).len() implies ship_wf(
                #[trigger] pop_view(out@)[k],
            ) && pop_view(out@)[k].net.sizes == ship_topology() by {
                if k < prev.len() {
                    assert(pop_view(out@)[k] == prev[k]);
                } else {
                    assert(pop_view(out@)[k] == shv);
                }
            }
        }
        j = j + 1;
    }
    *ships = out;
    proof {
        lemma_fill_prefix(sortedv, elites, n as nat, lr as int, sfill0);
        lemma_reset_pref_nets(filledv, spread as int, n as nat, sreset0);
        assert forall|i2: int| 0 <= i2 < n / 2 implies (#[trigger] pop_view(ships@)[i2]).net
            == sort_spec(pop0)[i2].net by {
            assert(pop_view(ships@)[i2].net == filledv[i2].net);
            assert(filledv[i2] == elites[i2]);
        }
    }
}

} // verus!
