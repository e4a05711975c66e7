//! The fixed-topology feedforward policy network.
//!
//! A network is an ordered list of layer sizes, one weight matrix per
//! adjacent pair of layers (each row carries one extra bias weight), and
//! one activation buffer per layer.  Inference, uniform crossover and
//! additive mutation are each pinned to an exact spec-level definition, so
//! a network's evolution is a deterministic function of the explicit
//! random source threaded through it.

use vstd::prelude::*;
use crate::fx::{abs_i, clamp_spec, fxmul, fxmul_spec, tdiv, HALF_FX, SCALE};
use crate::rng::{coin_of, unit_of, weight_of, xs_step, Entropy};

verus! {

/// Largest admitted layer width; keeps every weighted sum far from the
/// fixed-point overflow bound.
pub const MAX_WIDTH: u32 = 1024;

/// Weights saturate at this magnitude (128 in real units), the analogue of
/// the finite range of any machine number format.
pub const W_LIMIT: i64 = 134217728;

/// Largest magnitude an activation value can carry; the input layer is
/// required to stay under it and every later layer is a sigmoid output.
pub const VAL_LIMIT: i64 = 268435456;

/// Largest magnitude a weighted sum can reach, and so the domain on which
/// the sigmoid must be defined.
pub const SUM_LIMIT: i64 = 0x4000_0000_0000;

/// Natural logarithm of two, in fixed-point units.
pub const LN2_FX: i64 = 726817;

/// The two ways constructing or combining networks can be misused; both
/// mark configuration bugs and neither is recoverable.
#[derive(Clone, Copy, Debug, PartialEq, Eq, Structural)]
pub enum NetError {
    /// Fewer than two layer sizes were supplied.
    InvalidTopology,
    /// Crossover was attempted between differently shaped networks.
    TopologyMismatch,
}

/// The mathematical value of a network.
pub ghost struct NetV {
    pub sizes: Seq<int>,
    pub weights: Seq<Seq<int>>,
    pub values: Seq<Seq<int>>,
}

/// A fully connected feedforward network with sigmoid activations.
#[derive(Clone, Debug)]
pub struct neural_net {
    weights: Vec<Vec<i64>>,
    layer_values: Vec<Vec<i64>>,
    layer_sizes: Vec<u32>,
}

/// The integers a vector of fixed-point numbers stands for.
pub open spec fn row_view(v: Seq<i64>) -> Seq<int> {
    v.map_values(|x: i64| x as int)
}

/// The integers a matrix of fixed-point numbers stands for.
pub open spec fn mat_view(m: Seq<Vec<i64>>) -> Seq<Seq<int>> {
    m.map_values(|r: Vec<i64>| row_view(r@))
}

impl View for neural_net {
    type V = NetV;

    closed spec fn view(&self) -> NetV {
        NetV {
            sizes: self.layer_sizes@.map_values(|s: u32| s as int),
            weights: mat_view(self.weights@),
            values: mat_view(self.layer_values@),
        }
    }
}

/// Shape and range invariant of a network: the weight matrix between
/// layers `i` and `i + 1` has exactly `(sizes[i] + 1) * sizes[i + 1]`
/// entries, activation buffers match their layer sizes, and every stored
/// number stays within its representable band.
pub open spec fn net_wf(n: NetV) -> bool {
    &&& n.sizes.len() >= 2
    &&& forall|i: int| 0 <= i < n.sizes.len() ==> 1 <= #[trigger] n.sizes[i] <= MAX_WIDTH
    &&& n.values.len() == n.sizes.len()
    &&& forall|i: int| 0 <= i < n.values.len() ==> (#[trigger] n.values[i]).len() == n.sizes[i]
    &&& forall|i: int, j: int|
        0 <= i < n.values.len() && 0 <= j < n.values[i].len() ==> abs_i(
            #[trigger] n.values[i][j],
        ) <= VAL_LIMIT
    &&& n.weights.len() + 1 == n.sizes.len()
    &&& forall|i: int|
        0 <= i < n.weights.len() ==> (#[trigger] n.weights[i]).len() == (n.sizes[i] + 1)
            * n.sizes[i + 1]
    &&& forall|i: int, j: int|
        0 <= i < n.weights.len() && 0 <= j < n.weights[i].len() ==> abs_i(
            #[trigger] n.weights[i][j],
        ) <= W_LIMIT
}

/// Repeated halving: division by a power of two, one bit at a time.
pub open spec fn div_pow2(v: int, k: nat) -> int
    decreases k,
{
    if k == 0 {
        v
    } else {
        div_pow2(v, (k - 1) as nat) / 2
    }
}

/// The exponential of `-f` for small nonnegative `f`, by four terms of the
/// alternating series.
pub open spec fn exp_neg_small(f: int) -> int {
    let f2 = fxmul_spec(f, f);
    let f3 = fxmul_spec(f2, f);
    let f4 = fxmul_spec(f3, f);
    SCALE - f + f2 / 2 - f3 / 6 + f4 / 24
}

/// The exponential of `-x` for nonnegative `x`: split off the power of two
/// and evaluate the series on the remainder.
pub open spec fn exp_neg_spec(x: int) -> int {
    let k = x / (LN2_FX as int);
    let f = x % (LN2_FX as int);
    if k >= 40 {
        0
    } else {
        let e = div_pow2(exp_neg_small(f), k as nat);
        if e > SCALE {
            SCALE as int
        } else {
            e
        }
    }
}

/// The logistic sigmoid `1 / (1 + e^-x)` in fixed point, through the
/// identity `sigmoid(-x) == 1 - sigmoid(x)`.
pub open spec fn sigmoid_spec(x: int) -> int {
    if x >= 0 {
        (SCALE as int * SCALE as int) / (SCALE as int + exp_neg_spec(x))
    } else {
        SCALE - (SCALE as int * SCALE as int) / (SCALE as int + exp_neg_spec(-x))
    }
}

/// Exponential of `-x`, exactly `exp_neg_spec`; the result is a value in
/// `[0, 1]`.
fn exp_neg(x: i64) -> (r: i64)
    requires
        0 <= x <= SUM_LIMIT,
    ensures
        r as int == exp_neg_spec(x as int),
        0 <= r <= SCALE,
{
    let k: u64 = (x as u64) / (LN2_FX as u64);
    let f: i64 = ((x as u64) % (LN2_FX as u64)) as i64;
    if k >= 40 {
        return 0;
    }
    let f2 = fxmul(f, f);
    proof {
        let fi = f as int;
        let si = SCALE as int;
        assert(fi * fi / si < si) by (nonlinear_arith)
            requires
                0 <= fi < 1048576,
                si == 1048576,
        ;
    }
    let f3 = fxmul(f2, f);
    proof {
        let fi = f as int;
        let si = SCALE as int;
        assert(abs_i(f2 as int) * fi / si <= si) by (nonlinear_arith)
            requires
                0 <= abs_i(f2 as int) <= si,
                0 <= fi < si,
                si == 1048576,
        ;
    }
    let f4 = fxmul(f3, f);
    proof {
        let fi = f as int;
        let si = SCALE as int;
        assert(abs_i(f3 as int) * fi / si <= si) by (nonlinear_arith)
            requires
                0 <= abs_i(f3 as int) <= si,
                0 <= fi < si,
                si == 1048576,
        ;
    }
    let v: i64 = SCALE - f + ((f2 as u64) / 2) as i64 - ((f3 as u64) / 6) as i64 + ((
    f4 as u64) / 24) as i64;
    proof {
        crate::fx::lemma_tdiv_mag(f2 as int, 2);
        crate::fx::lemma_tdiv_mag(f3 as int, 6);
        crate::fx::lemma_tdiv_mag(f4 as int, 24);
    }
    let mut r: i64 = v;
    let mut i: u64 = 0;
    while i < k
        invariant
            0 <= i <= k,
            k < 40,
            0 <= r,
            r as int == div_pow2(v as int, i as nat),
            r <= v,
            0 <= v < 2 * SCALE,
        decreases k - i,
    {
        r = r / 2;
        i = i + 1;
    }
    if r > SCALE {
        SCALE
    } else {
        r
    }
}

/// The logistic sigmoid, exactly `sigmoid_spec`; the result is a value in
/// `[0, 1]`.
pub fn sigmoid(x: i64) -> (r: i64)
    requires
        abs_i(x as int) <= SUM_LIMIT,
    ensures
        r as int == sigmoid_spec(x as int),
        0 <= r <= SCALE,
{
    if x >= 0 {
        let e = exp_neg(x);
        let q: u64 = ((SCALE as u64) * (SCALE as u64)) / ((SCALE + e) as u64);
        proof {
            let si = SCALE as int;
            let ei = e as int;
            assert(si * si / (si + ei) <= si) by (nonlinear_arith)
                requires
                    si == 1048576,
                    0 <= ei <= si,
            ;
        }
        q as i64
    } else {
        let e = exp_neg(-x);
        let q: u64 = ((SCALE as u64) * (SCALE as u64)) / ((SCALE + e) as u64);
        proof {
            let si = SCALE as int;
            let ei = e as int;
            assert(si * si / (si + ei) <= si) by (nonlinear_arith)
                requires
                    si == 1048576,
                    0 <= ei <= si,
            ;
            assert(si * si / (si + ei) >= 0) by (nonlinear_arith)
                requires
                    si == 1048576,
                    0 <= ei <= si,
            ;
        }
        SCALE - q as i64
    }
}


/// The integers a sequence of layer sizes stands for.
pub open spec fn sizes_view(s: Seq<u32>) -> Seq<int> {
    s.map_values(|x: u32| x as int)
}

/// A row of `n` zeroed activations.
pub open spec fn zero_row(n: nat) -> Seq<int> {
    Seq::new(n, |i: int| 0)
}

/// One zeroed activation buffer per layer.
pub open spec fn zero_values(sizes: Seq<int>) -> Seq<Seq<int>> {
    Seq::new(sizes.len(), |i: int| zero_row(sizes[i] as nat))
}

/// The first `count` freshly drawn weights of one matrix, with the state
/// the draws leave behind.
pub open spec fn gen_row(count: nat, s0: u64) -> (Seq<int>, u64)
    decreases count,
{
    if count == 0 {
        (Seq::<int>::empty(), s0)
    } else {
        let pre = gen_row((count - 1) as nat, s0);
        let s2 = xs_step(pre.1);
        (pre.0.push(weight_of(s2)), s2)
    }
}

/// The first `k` freshly drawn weight matrices for the given layer sizes.
pub open spec fn gen_mat(sizes: Seq<int>, k: nat, s0: u64) -> (Seq<Seq<int>>, u64)
    decreases k,
{
    if k == 0 {
        (Seq::<Seq<int>>::empty(), s0)
    } else {
        let pre = gen_mat(sizes, (k - 1) as nat, s0);
        let row = gen_row((((sizes[k - 1] + 1) * sizes[k as int])) as nat, pre.1);
        (pre.0.push(row.0), row.1)
    }
}

/// The network `new` constructs: weights drawn uniformly from `[-1, 1)`,
/// one matrix per adjacent layer pair, activations zeroed; paired with the
/// state the construction leaves behind.
pub open spec fn new_spec(sizes: Seq<int>, s0: u64) -> (NetV, u64) {
    let w = gen_mat(sizes, (sizes.len() - 1) as nat, s0);
    (NetV { sizes: sizes, weights: w.0, values: zero_values(sizes) }, w.1)
}

/// The first `k` entries of one crossover row: each taken from `a` or `b`
/// by a fresh coin.
pub open spec fn mix_row(a: Seq<int>, b: Seq<int>, k: nat, s0: u64) -> (Seq<int>, u64)
    decreases k,
{
    if k == 0 {
        (Seq::<int>::empty(), s0)
    } else {
        let pre = mix_row(a, b, (k - 1) as nat, s0);
        let s2 = xs_step(pre.1);
        (pre.0.push(if coin_of(s2) { a[k - 1] } else { b[k - 1] }), s2)
    }
}

/// The first `k` crossover matrices.
pub open spec fn mix_mat(aw: Seq<Seq<int>>, bw: Seq<Seq<int>>, k: nat, s0: u64) -> (
    Seq<Seq<int>>,
    u64,
)
    decreases k,
{
    if k == 0 {
        (Seq::<Seq<int>>::empty(), s0)
    } else {
        let pre = mix_mat(aw, bw, (k - 1) as nat, s0);
        let row = mix_row(aw[k - 1], bw[k - 1], aw[k - 1].len(), pre.1);
        (pre.0.push(row.0), row.1)
    }
}

/// The network uniform crossover produces: every weight copied from one
/// parent or the other, activations zeroed.
pub open spec fn mix_spec(a: NetV, b: NetV, s0: u64) -> (NetV, u64) {
    let w = mix_mat(a.weights, b.weights, a.weights.len(), s0);
    (NetV { sizes: a.sizes, weights: w.0, values: zero_values(a.sizes) }, w.1)
}

/// One mutated weight: uniform noise in `[-rate/2, rate/2]` added, then
/// saturated at the representable weight band.
pub open spec fn mutated_weight(w: int, lr: int, s: u64) -> int {
    clamp_spec(w + fxmul_spec(unit_of(s) - HALF_FX, lr), -W_LIMIT as int, W_LIMIT as int)
}

/// The first `k` entries of one mutated row.
pub open spec fn mut_row(a: Seq<int>, lr: int, k: nat, s0: u64) -> (Seq<int>, u64)
    decreases k,
{
    if k == 0 {
        (Seq::<int>::empty(), s0)
    } else {
        let pre = mut_row(a, lr, (k - 1) as nat, s0);
        let s2 = xs_step(pre.1);
        (pre.0.push(mutated_weight(a[k - 1], lr, s2)), s2)
    }
}

/// The first `k` mutated matrices.
pub open spec fn mut_mat(aw: Seq<Seq<int>>, lr: int, k: nat, s0: u64) -> (Seq<Seq<int>>, u64)
    decreases k,
{
    if k == 0 {
        (Seq::<Seq<int>>::empty(), s0)
    } else {
        let pre = mut_mat(aw, lr, (k - 1) as nat, s0);
        let row = mut_row(aw[k - 1], lr, aw[k - 1].len(), pre.1);
        (pre.0.push(row.0), row.1)
    }
}

/// The network additive mutation produces: every weight nudged by fresh
/// noise, activations zeroed.
pub open spec fn mutate_spec(a: NetV, lr: int, s0: u64) -> (NetV, u64) {
    let w = mut_mat(a.weights, lr, a.weights.len(), s0);
    (NetV { sizes: a.sizes, weights: w.0, values: zero_values(a.sizes) }, w.1)
}

/// The network with its input buffer overwritten.
pub open spec fn set_input_spec(n: NetV, vals: Seq<int>) -> NetV {
    NetV { sizes: n.sizes, weights: n.weights, values: n.values.update(0, vals) }
}

/// The weighted sum of the first `k` source activations feeding
/// destination cell `c`, for a source layer of width `f`.
pub open spec fn wsum(prev: Seq<int>, wrow: Seq<int>, f: int, c: int, k: nat) -> int
    decreases k,
{
    if k == 0 {
        0
    } else {
        wsum(prev, wrow, f, c, (k - 1) as nat) + fxmul_spec(
            prev[k - 1],
            wrow[(f + 1) * c + (k - 1)],
        )
    }
}

/// One destination cell: all source activations weighted, the bias weight
/// added, the sigmoid applied.
pub open spec fn cell_out(prev: Seq<int>, wrow: Seq<int>, f: int, c: int) -> int {
    sigmoid_spec(wsum(prev, wrow, f, c, f as nat) + wrow[(f + 1) * c + f])
}

/// The first `c` cells of one propagated layer.
pub open spec fn out_row(prev: Seq<int>, wrow: Seq<int>, f: int, c: nat) -> Seq<int>
    decreases c,
{
    if c == 0 {
        Seq::<int>::empty()
    } else {
        out_row(prev, wrow, f, (c - 1) as nat).push(cell_out(prev, wrow, f, (c - 1) as int))
    }
}

/// The activations of layer `li` after propagation.
pub open spec fn prop_values(n: NetV, li: nat) -> Seq<int>
    decreases li,
{
    if li == 0 {
        n.values[0]
    } else {
        out_row(
            prop_values(n, (li - 1) as nat),
            n.weights[li - 1],
            n.sizes[li - 1],
            n.sizes[li as int] as nat,
        )
    }
}

/// The first `k` propagated activation buffers.
pub open spec fn fwd_values(n: NetV, k: nat) -> Seq<Seq<int>>
    decreases k,
{
    if k == 0 {
        Seq::<Seq<int>>::empty()
    } else {
        fwd_values(n, (k - 1) as nat).push(prop_values(n, (k - 1) as nat))
    }
}

/// The network after one full forward pass: weights and sizes untouched,
/// every activation buffer beyond the input recomputed in order.
pub open spec fn forward_spec(n: NetV) -> NetV {
    NetV { sizes: n.sizes, weights: n.weights, values: fwd_values(n, n.sizes.len() as nat) }
}

/// Mapping to integers commutes with appending an element.
proof fn lemma_row_view_push(s: Seq<i64>, x: i64)
    ensures
        row_view(s.push(x)) == row_view(s).push(x as int),
{
    assert(row_view(s.push(x)) =~= row_view(s).push(x as int));
}

/// Mapping to integer matrices commutes with appending a row.
proof fn lemma_mat_view_push(m: Seq<Vec<i64>>, r: Vec<i64>)
    ensures
        mat_view(m.push(r)) == mat_view(m).push(row_view(r@)),
{
    assert(mat_view(m.push(r)) =~= mat_view(m).push(row_view(r@)));
}

/// The forward pass produces one buffer per layer.
proof fn lemma_fwd_values_len(n: NetV, k: nat)
    ensures
        fwd_values(n, k).len() == k,
    decreases k,
{
    if k > 0 {
        lemma_fwd_values_len(n, (k - 1) as nat);
    }
}

/// Every buffer the forward pass produces, read back by index.
proof fn lemma_fwd_values_index(n: NetV, k: nat, l: int)
    requires
        0 <= l < k,
    ensures
        fwd_values(n, k)[l] == prop_values(n, l as nat),
    decreases k,
{
    lemma_fwd_values_len(n, (k - 1) as nat);
    if l < k - 1 {
        lemma_fwd_values_index(n, (k - 1) as nat, l);
    }
}


impl neural_net {
    /// Construct a network on the given layer sizes, drawing every weight
    /// uniformly from `[-1, 1)` out of the explicit random source; fails
    /// with `InvalidTopology` when fewer than two sizes are given, leaving
    /// the source untouched.
    pub fn new(layer_sizes: Vec<u32>, e: &mut Entropy) -> (r: Result<neural_net, NetError>)
        requires
            forall|i: int|
                0 <= i < layer_sizes@.len() ==> 1 <= #[trigger] layer_sizes@[i] <= MAX_WIDTH,
        ensures
            layer_sizes@.len() < 2 ==> r == Result::<neural_net, NetError>::Err(
                NetError::InvalidTopology,
            ) && final(e)@ == old(e)@,
            layer_sizes@.len() >= 2 ==> (r matches Ok(n) && n@ == new_spec(
                sizes_view(layer_sizes@),
                old(e)@,
            ).0 && final(e)@ == new_spec(sizes_view(layer_sizes@), old(e)@).1 && net_wf(n@)
                && n@.sizes == sizes_view(layer_sizes@)),
    {
        if layer_sizes.len() < 2 {
            return Err(NetError::InvalidTopology);
        }
        let ghost sizesv = sizes_view(layer_sizes@);
        let ghost s0 = old(e)@;
        let mut layer_values: Vec<Vec<i64>> = Vec::new();
        let mut i: usize = 0;
        while i < layer_sizes.len()
            invariant
                i <= layer_sizes@.len(),
                sizesv == sizes_view(layer_sizes@),
                layer_values@.len() == i,
                forall|t: int|
                    0 <= t < i ==> #[trigger] mat_view(layer_values@)[t] == zero_row(
                        sizesv[t] as nat,
                    ),
            decreases layer_sizes@.len() - i,
        {
            let w = layer_sizes[i];
            let mut row: Vec<i64> = Vec::new();
            let mut j: u32 = 0;
            while j < w
                invariant
                    j <= w,
                    row@.len() == j,
                    row_view(row@) == zero_row(j as nat),
                decreases w - j,
            {
                let ghost prev = row@;
                row.push(0i64);
                proof {
                    lemma_row_view_push(prev, 0i64);
                    assert(zero_row(j as nat).push(0) =~= zero_row((j + 1) as nat));
                }
                j = j + 1;
            }
            let ghost prevm = layer_values@;
            layer_values.push(row);
            proof {
                lemma_mat_view_push(prevm, row);
            }
            i = i + 1;
        }
        let mut weights: Vec<Vec<i64>> = Vec::new();
        let mut li: usize = 0;
        while li < layer_sizes.len() - 1
            invariant
                li <= layer_sizes@.len() - 1,
                layer_sizes@.len() >= 2,
                sizesv == sizes_view(layer_sizes@),
                forall|t: int|
                    0 <= t < layer_sizes@.len() ==> 1 <= #[trigger] layer_sizes@[t] <= MAX_WIDTH,
                weights@.len() == li,
                mat_view(weights@) == gen_mat(sizesv, li as nat, s0).0,
                e@ == gen_mat(sizesv, li as nat, s0).1,
                forall|t: int, u: int|
                    0 <= t < weights@.len() && 0 <= u < weights@[t]@.len() ==> abs_i(
                        #[trigger] weights@[t]@[u] as int,
                    ) <= SCALE,
                forall|t: int|
                    0 <= t < weights@.len() ==> (#[trigger] mat_view(weights@)[t]).len() == (
                    sizesv[t] + 1) * sizesv[t + 1],
            decreases layer_sizes@.len() - 1 - li,
        {
            let f = layer_sizes[li];
            let t = layer_sizes[li + 1];
            proof {
                assert((f + 1) as int * t as int <= 1025int * 1024int) by (nonlinear_arith)
                    requires
                        1 <= (f as int) <= 1024,
                        1 <= (t as int) <= 1024,
                ;
            }
            let cnt: u32 = (f + 1) * t;
            let ghost srow0 = e@;
            let mut row: Vec<i64> = Vec::new();
            let mut j: u32 = 0;
            while j < cnt
                invariant
                    j <= cnt,
                    row@.len() == j,
                    row_view(row@) == gen_row(j as nat, srow0).0,
                    e@ == gen_row(j as nat, srow0).1,
                    forall|u: int|
                        0 <= u < row@.len() ==> abs_i(#[trigger] row@[u] as int) <= SCALE,
                decreases cnt - j,
            {
                let ghost prev = row@;
                let wv = e.next_weight();
                row.push(wv);
                proof {
                    lemma_row_view_push(prev, wv);
                }
                j = j + 1;
            }
            let ghost prevm = weights@;
            weights.push(row);
            proof {
                lemma_mat_view_push(prevm, row);
                assert(gen_mat(sizesv, (li + 1) as nat, s0).0 == gen_mat(
                    sizesv,
                    li as nat,
                    s0,
                ).0.push(gen_row(((sizesv[li as int] + 1) * sizesv[li as int + 1]) as nat, srow0).0));
                assert(cnt as int == (sizesv[li as int] + 1) * sizesv[li as int + 1]);
            }
            li = li + 1;
        }
        let n = neural_net { weights, layer_values, layer_sizes };
        proof {
            assert(n@.values =~= zero_values(sizesv));
            assert(n@ == new_spec(sizesv, s0).0);
            assert forall|t: int, u: int|
                0 <= t < n@.values.len() && 0 <= u < n@.values[t].len() implies abs_i(
                #[trigger] n@.values[t][u],
            ) <= VAL_LIMIT by {
                assert(n@.values[t] == zero_row(sizesv[t] as nat));
            }
            assert forall|t: int, u: int|
                0 <= t < n@.weights.len() && 0 <= u < n@.weights[t].len() implies abs_i(
                #[trigger] n@.weights[t][u],
            ) <= W_LIMIT by {
                assert(n@.weights[t] == row_view(weights@[t]@));
                assert(n@.weights[t][u] == weights@[t]@[u] as int);
            }
            assert(net_wf(n@));
        }
        Ok(n)
    }

    /// Overwrite the input layer's activation buffer.
    pub fn set_first_layer(&mut self, values: Vec<i64>)
        requires
            net_wf(old(self)@),
            values@.len() == old(self)@.sizes[0],
            forall|i: int|
                0 <= i < values@.len() ==> abs_i(#[trigger] values@[i] as int) <= VAL_LIMIT,
        ensures
            final(self)@ == set_input_spec(old(self)@, row_view(values@)),
            net_wf(final(self)@),
    {
        let ghost prevm = self.layer_values@;
        self.layer_values.set(0, values);
        proof {
            assert(mat_view(self.layer_values@) =~= mat_view(prevm).update(0, row_view(values@)));
        }
    }

    /// Read the output layer's activation buffer.
    pub fn get_last_layer(&self) -> (r: Vec<i64>)
        requires
            net_wf(self@),
        ensures
            row_view(r@) == self@.values[self@.values.len() - 1],
    {
        let last = self.layer_values.len() - 1;
        let src = &self.layer_values[last];
        let mut r: Vec<i64> = Vec::new();
        let mut i: usize = 0;
        while i < src.len()
            invariant
                i <= src@.len(),
                src == &self.layer_values[self.layer_values@.len() - 1],
                r@.len() == i,
                forall|t: int| 0 <= t < i ==> #[trigger] r@[t] == src@[t],
            decreases src@.len() - i,
        {
            r.push(src[i]);
            i = i + 1;
        }
        proof {
            assert(row_view(r@) =~= self@.values[self@.values.len() - 1]);
        }
        r
    }

    /// An exact copy of the network.
    pub fn duplicate(&self) -> (r: neural_net)
        ensures
            r@ == self@,
    {
        let mut weights: Vec<Vec<i64>> = Vec::new();
        let mut i: usize = 0;
        while i < self.weights.len()
            invariant
                i <= self.weights@.len(),
                weights@.len() == i,
                forall|t: int| 0 <= t < i ==> #[trigger] weights@[t]@ == self.weights@[t]@,
            decreases self.weights@.len() - i,
        {
            let src = &self.weights[i];
            let mut row: Vec<i64> = Vec::new();
            let mut j: usize = 0;
            while j < src.len()
                invariant
                    j <= src@.len(),
                    src == &self.weights[i as int],
                    i < self.weights@.len(),
                    row@.len() == j,
                    forall|t: int| 0 <= t < j ==> #[trigger] row@[t] == src@[t],
                decreases src@.len() - j,
            {
                row.push(src[j]);
                j = j + 1;
            }
            proof {
                assert(row@ =~= self.weights@[i as int]@);
            }
            weights.push(row);
            i = i + 1;
        }
        let mut layer_values: Vec<Vec<i64>> = Vec::new();
        let mut i2: usize = 0;
        while i2 < self.layer_values.len()
            invariant
                i2 <= self.layer_values@.len(),
                layer_values@.len() == i2,
                forall|t: int|
                    0 <= t < i2 ==> #[trigger] layer_values@[t]@ == self.layer_values@[t]@,
            decreases self.layer_values@.len() - i2,
        {
            let src = &self.layer_values[i2];
            let mut row: Vec<i64> = Vec::new();
            let mut j: usize = 0;
            while j < src.len()
                invariant
                    j <= src@.len(),
                    src == &self.layer_values[i2 as int],
                    i2 < self.layer_values@.len(),
                    row@.len() == j,
                    forall|t: int| 0 <= t < j ==> #[trigger] row@[t] == src@[t],
                decreases src@.len() - j,
            {
                row.push(src[j]);
                j = j + 1;
            }
            proof {
                assert(row@ =~= self.layer_values@[i2 as int]@);
            }
            layer_values.push(row);
            i2 = i2 + 1;
        }
        let layer_sizes = cloned_sizes(&self.layer_sizes);
        let n = neural_net { weights, layer_values, layer_sizes };
        proof {
            assert(mat_view(n.weights@) =~= mat_view(self.weights@));
            assert(mat_view(n.layer_values@) =~= mat_view(self.layer_values@));
        }
        n
    }

    /// The layer sizes the network was built on.
    pub fn sizes(&self) -> (r: &Vec<u32>)
        ensures
            sizes_view(r@) == self@.sizes,
    {
        &self.layer_sizes
    }

    /// How many weight matrices the network holds.
    pub fn weight_layer_count(&self) -> (r: usize)
        ensures
            r == self@.weights.len(),
    {
        self.weights.len()
    }

    /// How many weights the matrix between layers `li` and `li + 1` holds.
    pub fn weight_count(&self, li: usize) -> (r: usize)
        requires
            li < self@.weights.len(),
        ensures
            r == self@.weights[li as int].len(),
    {
        self.weights[li].len()
    }

    /// One weight, read back.
    pub fn weight_at(&self, li: usize, j: usize) -> (r: i64)
        requires
            li < self@.weights.len(),
            j < self@.weights[li as int].len(),
        ensures
            r as int == self@.weights[li as int][j as int],
    {
        proof {
            assert(self@.weights[li as int] == row_view(self.weights@[li as int]@));
        }
        self.weights[li][j]
    }
}


/// A mutated weight stays in the representable band, and while the source
/// weight leaves the noise room, it moves by at most half the rate in
/// either direction.
proof fn lemma_mutated_weight_band(w: int, lr: int, s: u64)
    requires
        0 <= lr <= SCALE,
    ensures
        abs_i(mutated_weight(w, lr, s)) <= W_LIMIT,
        abs_i(w) <= W_LIMIT && abs_i(w) + lr <= W_LIMIT ==> w - lr / 2 <= mutated_weight(
            w,
            lr,
            s,
        ) <= w + lr / 2,
{
    let u = unit_of(s);
    assert(0 <= u < SCALE);
    let d = fxmul_spec(u - HALF_FX, lr);
    crate::fx::lemma_fxmul_bound(u - HALF_FX, lr, HALF_FX as int, lr);
    assert(2 * abs_i(d) <= lr) by (nonlinear_arith)
        requires
            abs_i(d) * 1048576 <= 524288 * lr,
    ;
}

/// Entrywise reading of a mutated row: every entry stays in band, and
/// entries with room move by at most half the rate.
proof fn lemma_mut_row_facts(a: Seq<int>, lr: int, k: nat, s0: u64)
    requires
        0 <= lr <= SCALE,
        k <= a.len(),
    ensures
        mut_row(a, lr, k, s0).0.len() == k,
        forall|u: int| 0 <= u < k ==> abs_i(#[trigger] mut_row(a, lr, k, s0).0[u]) <= W_LIMIT,
        forall|u: int|
            0 <= u < k && abs_i(a[u]) <= W_LIMIT && abs_i(a[u]) + lr <= W_LIMIT ==> a[u] - lr / 2
                <= #[trigger] mut_row(a, lr, k, s0).0[u] <= a[u] + lr / 2,
    decreases k,
{
    if k > 0 {
        lemma_mut_row_facts(a, lr, (k - 1) as nat, s0);
        lemma_mutated_weight_band(a[k - 1], lr, xs_step(mut_row(a, lr, (k - 1) as nat, s0).1));
    }
}

/// Matrixwise reading of mutation: shapes are kept and every row obeys
/// the row facts.
proof fn lemma_mut_mat_facts(aw: Seq<Seq<int>>, lr: int, k: nat, s0: u64)
    requires
        0 <= lr <= SCALE,
        k <= aw.len(),
    ensures
        mut_mat(aw, lr, k, s0).0.len() == k,
        forall|t: int|
            0 <= t < k ==> (#[trigger] mut_mat(aw, lr, k, s0).0[t]).len() == aw[t].len(),
        forall|t: int, u: int|
            0 <= t < k && 0 <= u < aw[t].len() ==> abs_i(
                #[trigger] mut_mat(aw, lr, k, s0).0[t][u],
            ) <= W_LIMIT,
        forall|t: int, u: int|
            0 <= t < k && 0 <= u < aw[t].len() && abs_i(aw[t][u]) <= W_LIMIT && abs_i(aw[t][u])
                + lr <= W_LIMIT ==> aw[t][u] - lr / 2 <= #[trigger] mut_mat(
                aw,
                lr,
                k,
                s0,
            ).0[t][u] <= aw[t][u] + lr / 2,
    decreases k,
{
    if k > 0 {
        lemma_mut_mat_facts(aw, lr, (k - 1) as nat, s0);
        lemma_mut_row_facts(aw[k - 1], lr, aw[k - 1].len(), mut_mat(aw, lr, (k - 1) as nat, s0).1);
    }
}

/// Entrywise reading of a crossover row: each entry is one parent's.
proof fn lemma_mix_row_facts(a: Seq<int>, b: Seq<int>, k: nat, s0: u64)
    requires
        k <= a.len(),
        k <= b.len(),
    ensures
        mix_row(a, b, k, s0).0.len() == k,
        forall|u: int|
            0 <= u < k ==> #[trigger] mix_row(a, b, k, s0).0[u] == a[u] || mix_row(
                a,
                b,
                k,
                s0,
            ).0[u] == b[u],
    decreases k,
{
    if k > 0 {
        lemma_mix_row_facts(a, b, (k - 1) as nat, s0);
    }
}

/// Matrixwise reading of crossover: shapes are kept and every entry is
/// one parent's.
proof fn lemma_mix_mat_facts(aw: Seq<Seq<int>>, bw: Seq<Seq<int>>, k: nat, s0: u64)
    requires
        k <= aw.len(),
        k <= bw.len(),
        forall|t: int| 0 <= t < k ==> (#[trigger] aw[t]).len() == bw[t].len(),
    ensures
        mix_mat(aw, bw, k, s0).0.len() == k,
        forall|t: int|
            0 <= t < k ==> (#[trigger] mix_mat(aw, bw, k, s0).0[t]).len() == aw[t].len(),
        forall|t: int, u: int|
            0 <= t < k && 0 <= u < aw[t].len() ==> #[trigger] mix_mat(
                aw,
                bw,
                k,
                s0,
            ).0[t][u] == aw[t][u] || mix_mat(aw, bw, k, s0).0[t][u] == bw[t][u],
    decreases k,
{
    if k > 0 {
        lemma_mix_mat_facts(aw, bw, (k - 1) as nat, s0);
        lemma_mix_row_facts(aw[k - 1], bw[k - 1], aw[k - 1].len(), mix_mat(aw, bw, (k - 1) as nat, s0).1);
    }
}


/// A copy of a vector of sizes.
fn cloned_sizes(v: &Vec<u32>) -> (r: Vec<u32>)
    ensures
        r@ == v@,
{
    let mut r: Vec<u32> = Vec::new();
    let mut i: usize = 0;
    while i < v.len()
        invariant
            i <= v@.len(),
            r@.len() == i,
            forall|t: int| 0 <= t < i ==> #[trigger] r@[t] == v@[t],
        decreases v@.len() - i,
    {
        r.push(v[i]);
        i = i + 1;
    }
    proof {
        assert(r@ =~= v@);
    }
    r
}

/// Freshly zeroed activation buffers for the given layer sizes.
fn zero_buffers(layer_sizes: &Vec<u32>) -> (r: Vec<Vec<i64>>)
    ensures
        mat_view(r@) == zero_values(sizes_view(layer_sizes@)),
{
    let mut bufs: Vec<Vec<i64>> = Vec::new();
    let mut i: usize = 0;
    while i < layer_sizes.len()
        invariant
            i <= layer_sizes@.len(),
            bufs@.len() == i,
            forall|t: int|
                0 <= t < i ==> #[trigger] mat_view(bufs@)[t] == zero_row(
                    sizes_view(layer_sizes@)[t] as nat,
                ),
        decreases layer_sizes@.len() - i,
    {
        let w = layer_sizes[i];
        let mut row: Vec<i64> = Vec::new();
        let mut j: u32 = 0;
        while j < w
            invariant
                j <= w,
                row@.len() == j,
                row_view(row@) == zero_row(j as nat),
            decreases w - j,
        {
            let ghost prev = row@;
            row.push(0i64);
            proof {
                lemma_row_view_push(prev, 0i64);
                assert(zero_row(j as nat).push(0) =~= zero_row((j + 1) as nat));
            }
            j = j + 1;
        }
        let ghost prevm = bufs@;
        bufs.push(row);
        proof {
            lemma_mat_view_push(prevm, row);
        }
        i = i + 1;
    }
    proof {
        assert(mat_view(bufs@) =~= zero_values(sizes_view(layer_sizes@)));
    }
    bufs
}

impl neural_net {
    /// Whether two networks share their layer sizes.
    fn same_topology(&self, other: &neural_net) -> (r: bool)
        ensures
            r == (self@.sizes == other@.sizes),
    {
        if self.layer_sizes.len() != other.layer_sizes.len() {
            proof {
                assert(self@.sizes.len() != other@.sizes.len());
            }
            return false;
        }
        let mut i: usize = 0;
        while i < self.layer_sizes.len()
            invariant
                i <= self.layer_sizes@.len(),
                self.layer_sizes@.len() == other.layer_sizes@.len(),
                forall|t: int| 0 <= t < i ==> self.layer_sizes@[t] == other.layer_sizes@[t],
            decreases self.layer_sizes@.len() - i,
        {
            if self.layer_sizes[i] != other.layer_sizes[i] {
                proof {
                    assert(self@.sizes[i as int] != other@.sizes[i as int]);
                }
                return false;
            }
            i = i + 1;
        }
        proof {
            assert(self@.sizes =~= other@.sizes);
        }
        true
    }

    /// Uniform crossover: a new network of the same topology whose every
    /// weight is copied, by a fresh coin each, from `self` or from `other`;
    /// fails with `TopologyMismatch` when the shapes differ, leaving the
    /// random source untouched.
    pub fn mix_randomly_with_other(&self, other: &neural_net, e: &mut Entropy) -> (r: Result<
        neural_net,
        NetError,
    >)
        requires
            net_wf(self@),
            net_wf(other@),
        ensures
            self@.sizes != other@.sizes ==> r == Result::<neural_net, NetError>::Err(
                NetError::TopologyMismatch,
            ) && final(e)@ == old(e)@,
            self@.sizes == other@.sizes ==> (r matches Ok(n) && n@ == mix_spec(
                self@,
                other@,
                old(e)@,
            ).0 && final(e)@ == mix_spec(self@, other@, old(e)@).1 && net_wf(n@) && n@.sizes
                == self@.sizes && forall|t: int, u: int|
                0 <= t < n@.weights.len() && 0 <= u < n@.weights[t].len()
                    ==> #[trigger] n@.weights[t][u] == self@.weights[t][u] || n@.weights[t][u]
                    == other@.weights[t][u]),
    {
        if !self.same_topology(other) {
            return Err(NetError::TopologyMismatch);
        }
        let ghost a = self@;
        let ghost b = other@;
        let ghost s0 = old(e)@;
        let mut weights: Vec<Vec<i64>> = Vec::new();
        let mut li: usize = 0;
        proof {
            assert forall|t: int| 0 <= t < a.weights.len() implies (#[trigger] a.weights[t]).len()
                == b.weights[t].len() by {
                assert(a.weights[t].len() == (a.sizes[t] + 1) * a.sizes[t + 1]);
                assert(b.weights[t].len() == (b.sizes[t] + 1) * b.sizes[t + 1]);
            }
        }
        while li < self.weights.len()
            invariant
                li <= self.weights@.len(),
                a == self@,
                b == other@,
                net_wf(a),
                net_wf(b),
                a.sizes == b.sizes,
                forall|t: int|
                    0 <= t < a.weights.len() ==> (#[trigger] a.weights[t]).len()
                        == b.weights[t].len(),
                weights@.len() == li,
                mat_view(weights@) == mix_mat(a.weights, b.weights, li as nat, s0).0,
                e@ == mix_mat(a.weights, b.weights, li as nat, s0).1,
            decreases self.weights@.len() - li,
        {
            let cnt: usize = self.weights[li].len();
            proof {
                assert(a.weights[li as int] == row_view(self.weights@[li as int]@));
                assert(b.weights[li as int] == row_view(other.weights@[li as int]@));
                assert(a.weights[li as int].len() == b.weights[li as int].len());
                assert(other.weights@[li as int]@.len() == cnt);
            }
            let ghost srow0 = e@;
            let mut row: Vec<i64> = Vec::new();
            let mut j: usize = 0;
            while j < cnt
                invariant
                    j <= cnt,
                    a == self@,
                    b == other@,
                    net_wf(a),
                    net_wf(b),
                    a.sizes == b.sizes,
                    li < a.weights.len(),
                    li < self.weights@.len(),
                    li < other.weights@.len(),
                    cnt == a.weights[li as int].len(),
                    cnt == b.weights[li as int].len(),
                    cnt == self.weights@[li as int]@.len(),
                    cnt == other.weights@[li as int]@.len(),
                    row@.len() == j,
                    row_view(row@) == mix_row(
                        a.weights[li as int],
                        b.weights[li as int],
                        j as nat,
                        srow0,
                    ).0,
                    e@ == mix_row(a.weights[li as int], b.weights[li as int], j as nat, srow0).1,
                decreases cnt - j,
            {
                let ghost prev = row@;
                let c = e.next_coin();
                let wv: i64 = if c {
                    self.weights[li][j]
                } else {
                    other.weights[li][j]
                };
                row.push(wv);
                proof {
                    lemma_row_view_push(prev, wv);
                    assert(a.weights[li as int] == row_view(self.weights@[li as int]@));
                    assert(b.weights[li as int] == row_view(other.weights@[li as int]@));
                    assert(self.weights@[li as int]@[j as int] as int == a.weights[li as int][j as int]);
                    assert(other.weights@[li as int]@[j as int] as int == b.weights[li as int][j as int]);
                }
                j = j + 1;
            }
            let ghost prevm = weights@;
            weights.push(row);
            proof {
                lemma_mat_view_push(prevm, row);
            }
            li = li + 1;
        }
        let layer_values = zero_buffers(&self.layer_sizes);
        let layer_sizes = cloned_sizes(&self.layer_sizes);
        let n = neural_net { weights, layer_values, layer_sizes };
        proof {
            lemma_mix_mat_facts(a.weights, b.weights, a.weights.len(), s0);
            assert(n@ == mix_spec(a, b, s0).0);
            assert forall|t: int, u: int|
                0 <= t < n@.values.len() && 0 <= u < n@.values[t].len() implies abs_i(
                #[trigger] n@.values[t][u],
            ) <= VAL_LIMIT by {
                assert(n@.values[t] == zero_row(a.sizes[t] as nat));
            }
            assert forall|t: int, u: int|
                0 <= t < n@.weights.len() && 0 <= u < n@.weights[t].len() implies abs_i(
                #[trigger] n@.weights[t][u],
            ) <= W_LIMIT by {
                assert(n@.weights[t][u] == a.weights[t][u] || n@.weights[t][u] == b.weights[t][u]);
            }
            assert(net_wf(n@));
        }
        Ok(n)
    }

    /// Additive mutation: a new network of the same topology, every weight
    /// nudged by independent uniform noise in `[-lr/2, lr/2]` and saturated
    /// at the representable band; its activation buffers start zeroed.
    pub fn clone_mutated(&self, lr: i64, e: &mut Entropy) -> (r: neural_net)
        requires
            net_wf(self@),
            0 <= lr <= SCALE,
        ensures
            r@ == mutate_spec(self@, lr as int, old(e)@).0,
            final(e)@ == mutate_spec(self@, lr as int, old(e)@).1,
            net_wf(r@),
            r@.sizes == self@.sizes,
            forall|t: int, u: int|
                0 <= t < r@.weights.len() && 0 <= u < r@.weights[t].len() && abs_i(
                    self@.weights[t][u],
                ) + lr <= W_LIMIT ==> self@.weights[t][u] - lr / 2 <= #[trigger] r@.weights[t][u]
                    <= self@.weights[t][u] + lr / 2,
    {
        let ghost a = self@;
        let ghost s0 = old(e)@;
        let mut weights: Vec<Vec<i64>> = Vec::new();
        let mut li: usize = 0;
        while li < self.weights.len()
            invariant
                li <= self.weights@.len(),
                a == self@,
                net_wf(a),
                0 <= lr <= SCALE,
                weights@.len() == li,
                mat_view(weights@) == mut_mat(a.weights, lr as int, li as nat, s0).0,
                e@ == mut_mat(a.weights, lr as int, li as nat, s0).1,
            decreases self.weights@.len() - li,
        {
            let cnt: usize = self.weights[li].len();
            let ghost srow0 = e@;
            let mut row: Vec<i64> = Vec::new();
            let mut j: usize = 0;
            while j < cnt
                invariant
                    j <= cnt,
                    a == self@,
                    net_wf(a),
                    0 <= lr <= SCALE,
                    li < a.weights.len(),
                    li < self.weights@.len(),
                    cnt == a.weights[li as int].len(),
                    cnt == self.weights@[li as int]@.len(),
                    row@.len() == j,
                    row_view(row@) == mut_row(a.weights[li as int], lr as int, j as nat, srow0).0,
                    e@ == mut_row(a.weights[li as int], lr as int, j as nat, srow0).1,
                decreases cnt - j,
            {
                let ghost prev = row@;
                let u = e.next_unit();
                let d = fxmul(u - HALF_FX, lr);
                let base = self.weights[li][j];
                proof {
                    assert(a.weights[li as int] == row_view(self.weights@[li as int]@));
                    assert(base as int == a.weights[li as int][j as int]);
                    assert(abs_i(base as int) <= W_LIMIT);
                    crate::fx::lemma_tdiv_mag((u - HALF_FX) as int * lr as int, SCALE as int);
                    crate::fx::lemma_fxmul_bound(
                        (u - HALF_FX) as int,
                        lr as int,
                        HALF_FX as int,
                        lr as int,
                    );
                    assert(2 * abs_i(d as int) <= lr) by (nonlinear_arith)
                        requires
                            abs_i(d as int) * 1048576 <= 524288 * (lr as int),
                    ;
                }
                let wv = crate::fx::clamp(base + d, -W_LIMIT, W_LIMIT);
                row.push(wv);
                proof {
                    lemma_row_view_push(prev, wv);
                    assert(wv as int == mutated_weight(
                        a.weights[li as int][j as int],
                        lr as int,
                        e@,
                    ));
                }
                j = j + 1;
            }
            let ghost prevm = weights@;
            weights.push(row);
            proof {
                lemma_mat_view_push(prevm, row);
            }
            li = li + 1;
        }
        let layer_values = zero_buffers(&self.layer_sizes);
        let layer_sizes = cloned_sizes(&self.layer_sizes);
        let n = neural_net { weights, layer_values, layer_sizes };
        proof {
            lemma_mut_mat_facts(a.weights, lr as int, a.weights.len(), s0);
            assert(n@ == mutate_spec(a, lr as int, s0).0);
            assert forall|t: int, u: int|
                0 <= t < n@.values.len() && 0 <= u < n@.values[t].len() implies abs_i(
                #[trigger] n@.values[t][u],
            ) <= VAL_LIMIT by {
                assert(n@.values[t] == zero_row(a.sizes[t] as nat));
            }
            assert(net_wf(n@));
        }
        n
    }
}


impl neural_net {
    /// One full forward pass: for each layer beyond the input, every cell
    /// becomes the sigmoid of the weighted sum of all source activations
    /// plus that cell's bias weight.  Only activation buffers change.
    #[verifier::rlimit(60)]
    pub fn forward_propagate(&mut self)
        requires
            net_wf(old(self)@),
        ensures
            final(self)@ == forward_spec(old(self)@),
            net_wf(final(self)@),
            forall|l: int, u: int|
                1 <= l < final(self)@.values.len() && 0 <= u < final(self)@.values[l].len() ==> 0
                    <= #[trigger] final(self)@.values[l][u] <= SCALE,
    {
        let ghost n0 = old(self)@;
        let nl = self.layer_sizes.len();
        let mut li: usize = 1;
        while li < nl
            invariant
                1 <= li <= nl,
                net_wf(n0),
                nl == self.layer_sizes@.len(),
                nl == n0.sizes.len(),
                self@.sizes == n0.sizes,
                self@.weights == n0.weights,
                self.layer_values@.len() == nl,
                self.weights@.len() == nl - 1,
                forall|l: int|
                    0 <= l < nl ==> (#[trigger] self@.values[l]).len() == n0.sizes[l],
                forall|l: int, u: int|
                    0 <= l < nl && 0 <= u < self@.values[l].len() ==> abs_i(
                        #[trigger] self@.values[l][u],
                    ) <= VAL_LIMIT,
                forall|l: int|
                    0 <= l < li ==> #[trigger] self@.values[l] == prop_values(n0, l as nat),
                forall|l: int| li <= l < nl ==> #[trigger] self@.values[l] == n0.values[l],
                forall|l: int, u: int|
                    1 <= l < li && 0 <= u < self@.values[l].len() ==> 0
                        <= #[trigger] self@.values[l][u] <= SCALE,
            decreases nl - li,
        {
            let f: usize = self.layer_sizes[li - 1] as usize;
            let tw: usize = self.layer_sizes[li] as usize;
            let ghost prevv = self@.values[li - 1];
            let ghost wroww = n0.weights[li - 1];
            proof {
                assert(prevv == prop_values(n0, (li - 1) as nat));
                assert(prevv.len() == f as int);
                assert(wroww.len() == ((f as int) + 1) * (tw as int));
                assert(self.weights@[li - 1]@.len() == wroww.len());
                assert(self.layer_values@[li - 1]@.len() == f as int);
                assert((f as int + 1) * (tw as int) <= 1025int * 1024int) by (nonlinear_arith)
                    requires
                        1 <= (f as int) <= 1024,
                        1 <= (tw as int) <= 1024,
                ;
            }
            let mut row: Vec<i64> = Vec::new();
            let mut c: usize = 0;
            while c < tw
                invariant
                    c <= tw,
                    1 <= li < nl,
                    net_wf(n0),
                    nl == self.layer_sizes@.len(),
                    nl == n0.sizes.len(),
                    self@.sizes == n0.sizes,
                    self@.weights == n0.weights,
                    self.layer_values@.len() == nl,
                    self.weights@.len() == nl - 1,
                    1 <= f as int <= 1024,
                    1 <= tw as int <= 1024,
                    f as int == n0.sizes[li - 1],
                    tw as int == n0.sizes[li as int],
                    prevv == self@.values[li - 1],
                    prevv.len() == f as int,
                    forall|u: int| 0 <= u < prevv.len() ==> abs_i(#[trigger] prevv[u]) <= VAL_LIMIT,
                    wroww == n0.weights[li - 1],
                    wroww.len() == ((f as int) + 1) * (tw as int),
                    self.weights@[li - 1]@.len() == wroww.len(),
                    self.layer_values@[li - 1]@.len() == f as int,
                    forall|u: int| 0 <= u < wroww.len() ==> abs_i(#[trigger] wroww[u]) <= W_LIMIT,
                    row@.len() == c,
                    row_view(row@) == out_row(prevv, wroww, f as int, c as nat),
                    forall|u: int| 0 <= u < row@.len() ==> 0 <= #[trigger] row@[u] <= SCALE,
                decreases tw - c,
            {
                let mut sum: i64 = 0;
                let mut k: usize = 0;
                while k < f
                    invariant
                        k <= f,
                        c < tw,
                        1 <= li < nl,
                        net_wf(n0),
                        nl == self.layer_sizes@.len(),
                        self@.sizes == n0.sizes,
                        self@.weights == n0.weights,
                        self.layer_values@.len() == nl,
                        self.weights@.len() == nl - 1,
                        1 <= f as int <= 1024,
                        1 <= tw as int <= 1024,
                        prevv == self@.values[li - 1],
                        prevv.len() == f as int,
                        forall|u: int|
                            0 <= u < prevv.len() ==> abs_i(#[trigger] prevv[u]) <= VAL_LIMIT,
                        wroww == n0.weights[li - 1],
                        wroww.len() == ((f as int) + 1) * (tw as int),
                        self.weights@[li - 1]@.len() == wroww.len(),
                        self.layer_values@[li - 1]@.len() == f as int,
                        forall|u: int|
                            0 <= u < wroww.len() ==> abs_i(#[trigger] wroww[u]) <= W_LIMIT,
                        sum as int == wsum(prevv, wroww, f as int, c as int, k as nat),
                        abs_i(sum as int) <= (k as int) * 34359738368,
                    decreases f - k,
                {
                    proof {
                        assert((f as int + 1) * (c as int) + (k as int) < ((f as int) + 1) * (
                        tw as int)) by (nonlinear_arith)
                            requires
                                0 <= (c as int) < (tw as int),
                                0 <= (k as int) < (f as int) + 1,
                                1 <= (f as int),
                        ;
                        assert((f as int + 1) * (c as int) + (k as int) <= 1025int * 1024int
                            + 1024int) by (nonlinear_arith)
                            requires
                                0 <= (c as int) < (tw as int) <= 1024,
                                0 <= (k as int) <= (f as int) <= 1024,
                        ;
                    }
                    let idx: usize = (f + 1) * c + k;
                    let v = self.layer_values[li - 1][k];
                    let w = self.weights[li - 1][idx];
                    proof {
                        assert(self@.values[li - 1] == row_view(self.layer_values@[li - 1]@));
                        assert(v as int == prevv[k as int]);
                        assert(self@.weights[li - 1] == row_view(self.weights@[li - 1]@));
                        assert(w as int == wroww[idx as int]);
                        assert(abs_i(v as int) <= VAL_LIMIT);
                        assert(abs_i(w as int) <= W_LIMIT);
                        crate::fx::lemma_fxmul_bound(
                            v as int,
                            w as int,
                            VAL_LIMIT as int,
                            W_LIMIT as int,
                        );
                    }
                    let term = fxmul(v, w);
                    sum = sum + term;
                    k = k + 1;
                }
                proof {
                    assert((f as int + 1) * (c as int) + (f as int) < ((f as int) + 1) * (
                    tw as int)) by (nonlinear_arith)
                        requires
                            0 <= (c as int) < (tw as int),
                            1 <= (f as int),
                    ;
                    assert((f as int + 1) * (c as int) + (f as int) <= 1025int * 1024int + 1024int)
                        by (nonlinear_arith)
                        requires
                            0 <= (c as int) < (tw as int) <= 1024,
                            1 <= (f as int) <= 1024,
                    ;
                }
                let bidx: usize = (f + 1) * c + f;
                let bw = self.weights[li - 1][bidx];
                proof {
                    assert(self@.weights[li - 1] == row_view(self.weights@[li - 1]@));
                    assert(bw as int == wroww[bidx as int]);
                    assert(abs_i(bw as int) <= W_LIMIT);
                    assert(abs_i(sum as int) <= 1024int * 34359738368);
                }
                let s2 = sum + bw;
                let av = sigmoid(s2);
                let ghost prevrow = row@;
                row.push(av);
                proof {
                    lemma_row_view_push(prevrow, av);
                    assert(s2 as int == wsum(prevv, wroww, f as int, c as int, f as nat)
                        + wroww[(f as int + 1) * (c as int) + (f as int)]);
                    assert(av as int == cell_out(prevv, wroww, f as int, c as int));
                }
                c = c + 1;
            }
            let ghost prevm = self.layer_values@;
            self.layer_values.set(li, row);
            proof {
                assert(mat_view(self.layer_values@) =~= mat_view(prevm).update(
                    li as int,
                    row_view(row@),
                ));
                assert(self@.values[li as int] == out_row(prevv, wroww, f as int, tw as nat));
                assert(self@.values[li as int] == prop_values(n0, li as nat));
            }
            li = li + 1;
        }
        proof {
            lemma_fwd_values_len(n0, nl as nat);
            assert forall|l: int| 0 <= l < nl implies fwd_values(n0, nl as nat)[l] == #[trigger] self@.values[l] by {
                lemma_fwd_values_index(n0, nl as nat, l);
            }
            assert(self@.values =~= fwd_values(n0, nl as nat));
            assert(self@ == forward_spec(n0));
        }
    }
}

} // verus!
