//! A minimal multilayer-perceptron layer built on the engine's public
//! operations: neurons, layers and networks of them. Every parameter is a
//! leaf node whose value is drawn at random; a forward pass only calls the
//! engine's operators, and gradients are read and reset through the node
//! primitives alone.

use vstd::prelude::*;

use crate::engine::{
    ids_of, tanh_fwd, vals_of, values_consistent, with_grad, Graph, NodeModel,
    Operation, Tensor,
};
use crate::scalar::{
    add_bits, mul_bits, mul_val, random_word, sub_val, ONE_BITS, TWO_BITS, ZERO_BITS,
};

verus! {

/// Every listed arena index lies inside the graph.
pub open spec fn ids_in(ids: Seq<int>, m: Seq<NodeModel>) -> bool {
    forall|k: int| 0 <= k < ids.len() ==> 0 <= #[trigger] ids[k] < m.len()
}

/// The graph with the gradient accumulator of every listed node reset to
/// zero and everything else untouched.
pub open spec fn zero_grads(m: Seq<NodeModel>, ids: Seq<int>) -> Seq<NodeModel> {
    Seq::new(
        m.len(),
        |i: int|
            if ids.contains(i) {
                NodeModel { grad: ZERO_BITS, ..m[i] }
            } else {
                m[i]
            },
    )
}

/// Reset idempotence: after a reset every listed parameter's gradient is
/// zero, and resetting again changes nothing at all.
pub proof fn lemma_zero_grad_idempotent(m: Seq<NodeModel>, ids: Seq<int>)
    ensures
        forall|i: int|
            0 <= i < m.len() && ids.contains(i) ==> #[trigger] zero_grads(m, ids)[i].grad
                == ZERO_BITS,
        zero_grads(zero_grads(m, ids), ids) == zero_grads(m, ids),
{
    assert(zero_grads(zero_grads(m, ids), ids) =~~= zero_grads(m, ids));
}

/// Resetting one more listed node is one more gradient overwrite.
proof fn lemma_zero_grads_step(m: Seq<NodeModel>, ids: Seq<int>, k: int)
    requires
        0 <= k < ids.len(),
        0 <= ids[k] < m.len(),
    ensures
        zero_grads(m, ids.take(k + 1)) == with_grad(zero_grads(m, ids.take(k)), ids[k], ZERO_BITS),
{
    let a = zero_grads(m, ids.take(k + 1));
    let b = with_grad(zero_grads(m, ids.take(k)), ids[k], ZERO_BITS);
    assert forall|i: int| 0 <= i < m.len() implies a[i] == b[i] by {
        assert(ids.take(k + 1).contains(i) <==> (ids.take(k).contains(i) || i == ids[k])) by {
            if ids.take(k).contains(i) {
                let c = choose|c: int| 0 <= c < k && ids.take(k)[c] == i;
                assert(ids.take(k + 1)[c] == i);
            }
            if i == ids[k] {
                assert(ids.take(k + 1)[k] == i);
            }
            if ids.take(k + 1).contains(i) && i != ids[k] {
                let c = choose|c: int| 0 <= c < k + 1 && #[trigger] ids.take(k + 1)[c] == i;
                assert(c < k);
                assert(ids.take(k)[c] == i);
            }
        }
    }
    assert(a =~~= b);
}

/// Resetting one list of nodes and then another is resetting them together.
proof fn lemma_zero_grads_concat(m: Seq<NodeModel>, a: Seq<int>, b: Seq<int>)
    ensures
        zero_grads(zero_grads(m, a), b) == zero_grads(m, a + b),
{
    let lhs = zero_grads(zero_grads(m, a), b);
    let rhs = zero_grads(m, a + b);
    assert forall|i: int| 0 <= i < m.len() implies lhs[i] == rhs[i] by {
        assert((a + b).contains(i) <==> (a.contains(i) || b.contains(i))) by {
            if a.contains(i) {
                let c = choose|c: int| 0 <= c < a.len() && a[c] == i;
                assert((a + b)[c] == i);
            }
            if b.contains(i) {
                let c = choose|c: int| 0 <= c < b.len() && b[c] == i;
                assert((a + b)[a.len() + c] == i);
            }
            if (a + b).contains(i) {
                let c = choose|c: int| 0 <= c < (a + b).len() && (a + b)[c] == i;
                if c < a.len() {
                    assert(a[c] == i);
                } else {
                    assert(b[c - a.len()] == i);
                }
            }
        }
    }
    assert(lhs =~~= rhs);
}

/// The values of nodes that already existed are untouched by graph growth.
proof fn lemma_vals_of_prefix(m1: Seq<NodeModel>, m2: Seq<NodeModel>, ids: Seq<int>)
    requires
        m1.len() <= m2.len(),
        m2.take(m1.len() as int) == m1,
        ids_in(ids, m1),
    ensures
        vals_of(m2, ids) == vals_of(m1, ids),
{
    assert forall|k: int| 0 <= k < ids.len() implies vals_of(m2, ids)[k] == vals_of(m1, ids)[k] by {
        assert(0 <= ids[k] < m1.len());
        assert(m2[ids[k]] == m2.take(m1.len() as int)[ids[k]]);
    }
    assert(vals_of(m2, ids) =~= vals_of(m1, ids));
}

/// The concatenated parameter lists of a sequence of neurons, in order.
pub open spec fn params_cat(ns: Seq<Neuron>) -> Seq<int>
    decreases ns.len(),
{
    if ns.len() == 0 {
        Seq::empty()
    } else {
        params_cat(ns.drop_last()) + ns.last().param_ids()
    }
}

/// If all concatenated parameters lie inside the graph, so does each
/// neuron's own list.
proof fn lemma_params_cat_in(ns: Seq<Neuron>, m: Seq<NodeModel>, k: int)
    requires
        ids_in(params_cat(ns), m),
        0 <= k < ns.len(),
    ensures
        ids_in(ns[k].param_ids(), m),
    decreases ns.len(),
{
    let pre = params_cat(ns.drop_last());
    if k == ns.len() - 1 {
        assert forall|j: int| 0 <= j < ns[k].param_ids().len() implies 0 <= #[trigger] ns[k].param_ids()[j] < m.len() by {
            assert(params_cat(ns)[pre.len() + j] == ns[k].param_ids()[j]);
            assert(0 <= params_cat(ns)[pre.len() + j] < m.len());
        }
    } else {
        assert forall|j: int| 0 <= j < pre.len() implies 0 <= #[trigger] pre[j] < m.len() by {
            assert(params_cat(ns)[j] == pre[j]);
            assert(0 <= params_cat(ns)[j] < m.len());
        }
        assert(ns.drop_last()[k] == ns[k]);
        lemma_params_cat_in(ns.drop_last(), m, k);
    }
}

/// The output values of a whole layer of neurons over one input vector.
pub open spec fn layer_out(m: Seq<NodeModel>, ns: Seq<Neuron>, xv: Seq<u64>) -> Seq<u64> {
    Seq::new(
        ns.len(),
        |k: int| neuron_out(vals_of(m, ns[k].weight_ids()), m[ns[k].bias_id()].data, xv),
    )
}

/// A layer's output values only read parameters that already existed, so
/// graph growth leaves them untouched.
proof fn lemma_layer_out_prefix(
    m1: Seq<NodeModel>,
    m2: Seq<NodeModel>,
    ns: Seq<Neuron>,
    xv: Seq<u64>,
)
    requires
        m1.len() <= m2.len(),
        m2.take(m1.len() as int) == m1,
        forall|k: int| 0 <= k < ns.len() ==> (#[trigger] ns[k]).wf_in(m1),
    ensures
        layer_out(m2, ns, xv) == layer_out(m1, ns, xv),
{
    assert forall|k: int| 0 <= k < ns.len() implies layer_out(m2, ns, xv)[k] == layer_out(
        m1,
        ns,
        xv,
    )[k] by {
        assert(ns[k].wf_in(m1));
        lemma_vals_of_prefix(m1, m2, ns[k].weight_ids());
        assert(m2[ns[k].bias_id()] == m2.take(m1.len() as int)[ns[k].bias_id()]);
    }
    assert(layer_out(m2, ns, xv) =~= layer_out(m1, ns, xv));
}

/// Anything built on the engine that owns parameter leaves: it can reset
/// all of their gradient accumulators before a fresh backward pass.
pub trait Module {
    /// The arena indices of every parameter leaf this module owns.
    spec fn param_ids(&self) -> Seq<int>;

    /// Set every owned parameter's gradient accumulator to zero; a plain
    /// per-node mutation, not a graph operation.
    fn zero_grad(&self, g: &mut Graph)
        requires
            old(g).wf(),
            ids_in(self.param_ids(), old(g)@),
        ensures
            final(g)@ == zero_grads(old(g)@, self.param_ids()),
            final(g).wf(),
    ;
}

/// A scalar drawn uniformly from [-1, 1): 52 random mantissa bits make a
/// binary64 value in [1, 2), which is shifted and scaled through the engine's
/// scalar kernels.
fn random_unit_val() -> u64 {
    let r = random_word();
    let x = (r >> 12) | ONE_BITS;
    let y = sub_val(x, ONE_BITS);
    sub_val(mul_val(TWO_BITS, y), ONE_BITS)
}

/// The left fold of the first `n` products `w[k] * x[k]` into a zero
/// accumulator: `(((0 + w0*x0) + w1*x1) + ...)`.
pub open spec fn wsum(ws: Seq<u64>, xs: Seq<u64>, n: int) -> u64
    decreases n,
{
    if n <= 0 {
        ZERO_BITS
    } else {
        add_bits(wsum(ws, xs, n - 1), mul_bits(ws[n - 1], xs[n - 1]))
    }
}

/// The output value of one neuron: the hyperbolic tangent of the weighted
/// sum of its inputs plus its bias, all in binary64.
pub open spec fn neuron_out(wv: Seq<u64>, bv: u64, xv: Seq<u64>) -> u64 {
    let n = if wv.len() <= xv.len() {
        wv.len() as int
    } else {
        xv.len() as int
    };
    tanh_fwd(add_bits(wsum(wv, xv, n), bv))
}

/// The parameter leaves of one neuron: its weights and its bias.
pub struct NeuronData {
    weights: Vec<Tensor>,
    bias: Tensor,
}

/// A single tanh neuron holding handles to its parameter leaves.
pub struct Neuron(NeuronData);

impl Neuron {
    /// The arena indices of the weights, in order.
    pub closed spec fn weight_ids(self) -> Seq<int> {
        ids_of(self.0.weights@)
    }

    /// The arena index of the bias.
    pub closed spec fn bias_id(self) -> int {
        self.0.bias.id()
    }

    /// All parameters of this neuron lie inside the graph.
    pub open spec fn wf_in(self, m: Seq<NodeModel>) -> bool {
        &&& ids_in(self.weight_ids(), m)
        &&& 0 <= self.bias_id() < m.len()
    }

    /// Construct a neuron with `n` weights and a bias, each a fresh leaf
    /// with a value drawn uniformly from [-1, 1) and gradient zero.
    pub fn new(g: &mut Graph, n: usize) -> (nrn: Neuron)
        requires
            old(g).wf(),
        ensures
            final(g)@.len() == old(g)@.len() + n + 1,
            final(g)@.take(old(g)@.len() as int) == old(g)@,
            nrn.weight_ids().len() == n,
            forall|k: int| 0 <= k < n ==> #[trigger] nrn.weight_ids()[k] == old(g)@.len() + k,
            nrn.bias_id() == old(g)@.len() + n,
            forall|j: int|
                old(g)@.len() <= j < final(g)@.len() ==> #[trigger] final(g)@[j].op
                    == Operation::Leaf && final(g)@[j].grad == ZERO_BITS,
            final(g).wf(),
            values_consistent(old(g)@) ==> values_consistent(final(g)@),
    {
        let ghost m0 = g@;
        let mut weights: Vec<Tensor> = Vec::new();
        let mut k: usize = 0;
        proof {
            assert(g@.take(m0.len() as int) =~~= m0);
        }
        while k < n
            invariant
                g.wf(),
                k <= n,
                weights@.len() == k,
                g@.len() == m0.len() + k,
                g@.take(m0.len() as int) == m0,
                forall|j: int| 0 <= j < k ==> #[trigger] weights@[j].id() == m0.len() + j,
                forall|j: int|
                    m0.len() <= j < g@.len() ==> #[trigger] g@[j].op == Operation::Leaf
                        && g@[j].grad == ZERO_BITS,
                values_consistent(m0) ==> values_consistent(g@),
            decreases n - k,
        {
            let ghost mprev = g@;
            let w = random_unit_val();
            let t = Tensor::new(g, w);
            weights.push(t);
            k = k + 1;
            proof {
                assert(g@.take(m0.len() as int) =~~= m0);
                assert forall|j: int|
                    m0.len() <= j < g@.len() implies #[trigger] g@[j].op == Operation::Leaf
                    && g@[j].grad == ZERO_BITS by {
                    if j < mprev.len() {
                        assert(g@[j] == mprev[j]);
                    }
                }
            }
        }
        let ghost mw = g@;
        let b = random_unit_val();
        let bias = Tensor::new(g, b);
        proof {
            assert(g@.take(m0.len() as int) =~~= m0);
            assert forall|j: int|
                m0.len() <= j < g@.len() implies #[trigger] g@[j].op == Operation::Leaf
                && g@[j].grad == ZERO_BITS by {
                if j < mw.len() {
                    assert(g@[j] == mw[j]);
                }
            }
        }
        Neuron(NeuronData { weights, bias })
    }

    /// The forward pass of one neuron: multiply each input by its weight,
    /// fold the products into a zero leaf labelled "temp", add the bias, and
    /// squash the sum through the hyperbolic tangent. Inputs beyond the
    /// weight count, or weights beyond the input count, are ignored.
    pub fn forward(&self, g: &mut Graph, x: &Vec<Tensor>) -> (t: Tensor)
        requires
            old(g).wf(),
            self.wf_in(old(g)@),
            ids_in(ids_of(x@), old(g)@),
        ensures
            t.id() == final(g)@.len() - 1,
            final(g)@.len() > old(g)@.len(),
            final(g)@.take(old(g)@.len() as int) == old(g)@,
            final(g)@[t.id()].data == neuron_out(
                vals_of(old(g)@, self.weight_ids()),
                old(g)@[self.bias_id()].data,
                vals_of(old(g)@, ids_of(x@)),
            ),
            final(g)@[t.id()].grad == ZERO_BITS,
            final(g).wf(),
            values_consistent(old(g)@) ==> values_consistent(final(g)@),
    {
        let ghost m0 = g@;
        let ghost wv = vals_of(m0, self.weight_ids());
        let ghost xv = vals_of(m0, ids_of(x@));
        let mut acc = Tensor::new_with_label(g, ZERO_BITS, "temp");
        let n = if self.0.weights.len() <= x.len() {
            self.0.weights.len()
        } else {
            x.len()
        };
        proof {
            assert(g@.take(m0.len() as int) =~~= m0);
        }
        let mut k: usize = 0;
        while k < n
            invariant
                g.wf(),
                k <= n,
                n <= self.0.weights@.len(),
                n <= x@.len(),
                self.wf_in(m0),
                ids_in(ids_of(x@), m0),
                wv == vals_of(m0, self.weight_ids()),
                xv == vals_of(m0, ids_of(x@)),
                g@.len() > m0.len(),
                g@.take(m0.len() as int) == m0,
                acc.id() == g@.len() - 1,
                g@[acc.id()].data == wsum(wv, xv, k as int),
                g@[acc.id()].grad == ZERO_BITS,
                values_consistent(m0) ==> values_consistent(g@),
            decreases n - k,
        {
            let wt = self.0.weights[k];
            let xt = x[k];
            proof {
                assert(wt.id() == self.weight_ids()[k as int]);
                assert(0 <= self.weight_ids()[k as int] < m0.len());
                assert(xt.id() == ids_of(x@)[k as int]);
                assert(0 <= ids_of(x@)[k as int] < m0.len());
                assert(g@[wt.id()] == m0[wt.id()]);
                assert(g@[xt.id()] == m0[xt.id()]);
            }
            let ghost macc = g@;
            let wx = wt.mul(g, &xt);
            proof {
                assert(g@[acc.id()] == macc[acc.id()]);
            }
            let acc2 = acc.add(g, &wx);
            acc = acc2;
            k = k + 1;
            proof {
                assert(g@.take(m0.len() as int) =~~= m0);
                assert(wv[k - 1] == m0[self.weight_ids()[k - 1]].data);
                assert(xv[k - 1] == m0[ids_of(x@)[k - 1]].data);
                assert(g@[acc.id()].data == add_bits(
                    wsum(wv, xv, k - 1),
                    mul_bits(wv[k - 1], xv[k - 1]),
                ));
            }
        }
        proof {
            assert(0 <= self.bias_id() < m0.len());
            assert(g@[self.bias_id()] == m0[self.bias_id()]);
        }
        let acc_b = acc.add(g, &self.0.bias);
        let out = acc_b.tanh(g);
        proof {
            assert(g@.take(m0.len() as int) =~~= m0);
            assert(wv.len() == self.weight_ids().len());
            assert(xv.len() == ids_of(x@).len());
            assert(g@[out.id()].data == tanh_fwd(
                add_bits(wsum(wv, xv, n as int), m0[self.bias_id()].data),
            ));
        }
        out
    }

    /// The weight handles, in order.
    pub fn weights(&self) -> (r: Vec<Tensor>)
        ensures
            ids_of(r@) == self.weight_ids(),
    {
        let mut r: Vec<Tensor> = Vec::new();
        let mut k: usize = 0;
        while k < self.0.weights.len()
            invariant
                k <= self.0.weights@.len(),
                r@.len() == k,
                forall|j: int| 0 <= j < k ==> #[trigger] r@[j] == self.0.weights@[j],
            decreases self.0.weights@.len() - k,
        {
            r.push(self.0.weights[k]);
            k = k + 1;
        }
        proof {
            assert(ids_of(r@) =~= self.weight_ids());
        }
        r
    }

    /// The bias handle.
    pub fn bias(&self) -> (r: Tensor)
        ensures
            r.id() == self.bias_id(),
    {
        self.0.bias
    }

    /// All parameter handles: the weights, then the bias.
    pub fn parameters(&self) -> (r: Vec<Tensor>)
        ensures
            ids_of(r@) == self.param_ids(),
    {
        let mut r = self.weights();
        r.push(self.0.bias);
        proof {
            assert(ids_of(r@) =~= self.param_ids());
        }
        r
    }
}

impl Clone for Neuron {
    /// Share the same parameter leaves under a fresh handle collection.
    fn clone(&self) -> (res: Self)
        ensures
            res.weight_ids() == self.weight_ids(),
            res.bias_id() == self.bias_id(),
    {
        let ws = self.weights();
        proof {
            assert(ids_of(ws@) =~= ids_of(self.0.weights@));
        }
        Neuron(NeuronData { weights: ws, bias: self.0.bias })
    }
}

impl Module for Neuron {
    /// The weights, then the bias.
    closed spec fn param_ids(&self) -> Seq<int> {
        self.weight_ids().push(self.bias_id())
    }

    fn zero_grad(&self, g: &mut Graph) {
        let ghost m0 = g@;
        let ghost pids = self.param_ids();
        let mut k: usize = 0;
        proof {
            assert(zero_grads(m0, pids.take(0)) =~~= m0);
        }
        while k < self.0.weights.len()
            invariant
                g.wf(),
                k <= self.0.weights@.len(),
                pids == self.param_ids(),
                pids.len() == self.0.weights@.len() + 1,
                forall|j: int|
                    0 <= j < self.0.weights@.len() ==> #[trigger] pids[j]
                        == self.0.weights@[j].id(),
                pids[self.0.weights@.len() as int] == self.bias_id(),
                ids_in(pids, m0),
                g@.len() == m0.len(),
                g@ == zero_grads(m0, pids.take(k as int)),
            decreases self.0.weights@.len() - k,
        {
            let t = self.0.weights[k];
            proof {
                assert(t.id() == pids[k as int]);
                assert(0 <= pids[k as int] < m0.len());
            }
            t.set_grad(g, ZERO_BITS);
            k = k + 1;
            proof {
                lemma_zero_grads_step(m0, pids, k - 1);
            }
        }
        self.0.bias.set_grad(g, ZERO_BITS);
        proof {
            lemma_zero_grads_step(m0, pids, pids.len() - 1);
            assert(pids.take(pids.len() as int) =~= pids);
            assert(pids.take(pids.len() - 1) =~= pids.take(self.0.weights@.len() as int));
        }
    }
}

/// The neurons of one layer.
pub struct LayerData {
    neurons: Vec<Neuron>,
}

/// A fully connected layer: every neuron sees the whole input vector.
pub struct Layer(LayerData);

impl Layer {
    /// The neurons, in order.
    pub closed spec fn neuron_seq(self) -> Seq<Neuron> {
        self.0.neurons@
    }

    /// All parameters of every neuron lie inside the graph.
    pub open spec fn wf_in(self, m: Seq<NodeModel>) -> bool {
        forall|k: int| 0 <= k < self.neuron_seq().len() ==> (#[trigger] self.neuron_seq()[k]).wf_in(
            m,
        )
    }

    /// Construct a layer of `n_out` neurons, each with `n_in` weights and a
    /// bias, all freshly drawn parameter leaves.
    pub fn new(g: &mut Graph, n_in: usize, n_out: usize) -> (lyr: Layer)
        requires
            old(g).wf(),
        ensures
            lyr.neuron_seq().len() == n_out,
            forall|k: int|
                0 <= k < n_out ==> (#[trigger] lyr.neuron_seq()[k]).weight_ids().len() == n_in,
            lyr.wf_in(final(g)@),
            final(g)@.len() >= old(g)@.len(),
            final(g)@.take(old(g)@.len() as int) == old(g)@,
            forall|j: int|
                old(g)@.len() <= j < final(g)@.len() ==> #[trigger] final(g)@[j].op
                    == Operation::Leaf && final(g)@[j].grad == ZERO_BITS,
            final(g).wf(),
            values_consistent(old(g)@) ==> values_consistent(final(g)@),
    {
        let ghost m0 = g@;
        let mut neurons: Vec<Neuron> = Vec::new();
        let mut k: usize = 0;
        proof {
            assert(g@.take(m0.len() as int) =~~= m0);
        }
        while k < n_out
            invariant
                g.wf(),
                k <= n_out,
                neurons@.len() == k,
                g@.len() >= m0.len(),
                g@.take(m0.len() as int) == m0,
                forall|j: int|
                    0 <= j < k ==> (#[trigger] neurons@[j]).wf_in(g@) && neurons@[j].weight_ids().len()
                        == n_in,
                forall|j: int|
                    m0.len() <= j < g@.len() ==> #[trigger] g@[j].op == Operation::Leaf
                        && g@[j].grad == ZERO_BITS,
                values_consistent(m0) ==> values_consistent(g@),
            decreases n_out - k,
        {
            let ghost mprev = g@;
            let nrn = Neuron::new(g, n_in);
            neurons.push(nrn);
            k = k + 1;
            proof {
                assert(g@.take(m0.len() as int) =~~= m0);
                assert forall|j: int| 0 <= j < k implies (#[trigger] neurons@[j]).wf_in(g@)
                    && neurons@[j].weight_ids().len() == n_in by {
                    if j < k - 1 {
                        assert(neurons@[j].wf_in(mprev));
                    } else {
                        assert(neurons@[j] == nrn);
                    }
                }
                assert forall|j: int|
                    m0.len() <= j < g@.len() implies #[trigger] g@[j].op == Operation::Leaf
                    && g@[j].grad == ZERO_BITS by {
                    if j < mprev.len() {
                        assert(g@[j] == g@.take(mprev.len() as int)[j]);
                        assert(g@[j] == mprev[j]);
                    }
                }
            }
        }
        Layer(LayerData { neurons })
    }

    /// The neuron handles, in order.
    pub fn neurons(&self) -> (r: Vec<Neuron>)
        ensures
            r@.len() == self.neuron_seq().len(),
            forall|k: int|
                0 <= k < r@.len() ==> #[trigger] r@[k].weight_ids() == self.neuron_seq()[k].weight_ids()
                    && r@[k].bias_id() == self.neuron_seq()[k].bias_id(),
    {
        let mut r: Vec<Neuron> = Vec::new();
        let mut k: usize = 0;
        while k < self.0.neurons.len()
            invariant
                k <= self.0.neurons@.len(),
                r@.len() == k,
                forall|j: int|
                    0 <= j < k ==> #[trigger] r@[j].weight_ids()
                        == self.0.neurons@[j].weight_ids() && r@[j].bias_id()
                        == self.0.neurons@[j].bias_id(),
            decreases self.0.neurons@.len() - k,
        {
            r.push(self.0.neurons[k].clone());
            k = k + 1;
        }
        r
    }

    /// All parameter handles of the layer: each neuron's weights and bias,
    /// neuron by neuron.
    pub fn parameters(&self) -> (r: Vec<Tensor>)
        ensures
            ids_of(r@) == self.param_ids(),
    {
        let mut r: Vec<Tensor> = Vec::new();
        let mut k: usize = 0;
        proof {
            assert(ids_of(r@) =~= params_cat(self.neuron_seq().take(0)));
        }
        while k < self.0.neurons.len()
            invariant
                k <= self.0.neurons@.len(),
                ids_of(r@) == params_cat(self.neuron_seq().take(k as int)),
            decreases self.0.neurons@.len() - k,
        {
            let mut ps = self.0.neurons[k].parameters();
            let ghost rpre = r@;
            let mut j: usize = 0;
            while j < ps.len()
                invariant
                    j <= ps@.len(),
                    r@.len() == rpre.len() + j,
                    ids_of(r@) == ids_of(rpre) + ids_of(ps@).take(j as int),
                decreases ps@.len() - j,
            {
                let ghost rprev = r@;
                r.push(ps[j]);
                j = j + 1;
                proof {
                    assert(ids_of(r@) =~= ids_of(rprev).push(ps@[j - 1].id()));
                    assert(ids_of(ps@).take(j as int).drop_last() =~= ids_of(ps@).take(j - 1));
                    assert(ids_of(ps@).take(j as int).last() == ps@[j - 1].id());
                    assert(ids_of(r@) =~= ids_of(rpre) + ids_of(ps@).take(j as int));
                }
            }
            k = k + 1;
            proof {
                assert(ids_of(ps@).take(ps@.len() as int) =~= ids_of(ps@));
                assert(self.neuron_seq().take(k as int).drop_last() =~= self.neuron_seq().take(
                    k - 1,
                ));
                assert(self.neuron_seq().take(k as int).last() == self.neuron_seq()[k - 1]);
                assert(ids_of(r@) =~= params_cat(self.neuron_seq().take(k as int)));
            }
        }
        proof {
            assert(self.neuron_seq().take(self.neuron_seq().len() as int) =~= self.neuron_seq());
        }
        r
    }

    /// The forward pass of the whole layer: every neuron reads the same
    /// input vector; the outputs come in neuron order.
    pub fn forward(&self, g: &mut Graph, x: &Vec<Tensor>) -> (r: Vec<Tensor>)
        requires
            old(g).wf(),
            self.wf_in(old(g)@),
            ids_in(ids_of(x@), old(g)@),
        ensures
            r@.len() == self.neuron_seq().len(),
            ids_in(ids_of(r@), final(g)@),
            vals_of(final(g)@, ids_of(r@)) == layer_out(
                old(g)@,
                self.neuron_seq(),
                vals_of(old(g)@, ids_of(x@)),
            ),
            final(g)@.len() >= old(g)@.len(),
            final(g)@.take(old(g)@.len() as int) == old(g)@,
            final(g).wf(),
            values_consistent(old(g)@) ==> values_consistent(final(g)@),
    {
        let ghost m0 = g@;
        let ghost xv = vals_of(m0, ids_of(x@));
        let ghost outs = layer_out(m0, self.neuron_seq(), xv);
        let mut r: Vec<Tensor> = Vec::new();
        let mut k: usize = 0;
        proof {
            assert(g@.take(m0.len() as int) =~~= m0);
        }
        while k < self.0.neurons.len()
            invariant
                g.wf(),
                k <= self.0.neurons@.len(),
                r@.len() == k,
                self.wf_in(m0),
                ids_in(ids_of(x@), m0),
                xv == vals_of(m0, ids_of(x@)),
                outs == layer_out(m0, self.neuron_seq(), xv),
                g@.len() >= m0.len(),
                g@.take(m0.len() as int) == m0,
                forall|j: int|
                    0 <= j < k ==> 0 <= #[trigger] r@[j].id() < g@.len() && g@[r@[j].id()].data
                        == outs[j],
                values_consistent(m0) ==> values_consistent(g@),
            decreases self.0.neurons@.len() - k,
        {
            let ghost mprev = g@;
            proof {
                assert(self.neuron_seq()[k as int].wf_in(m0));
                assert forall|j: int|
                    0 <= j < self.0.neurons@[k as int].weight_ids().len() implies 0 <= #[trigger] self.0.neurons@[k as int].weight_ids()[j] < g@.len() by {
                    assert(0 <= self.0.neurons@[k as int].weight_ids()[j] < m0.len());
                }
                assert forall|j: int| 0 <= j < ids_of(x@).len() implies 0 <= #[trigger] ids_of(
                    x@,
                )[j] < g@.len() by {
                    assert(0 <= ids_of(x@)[j] < m0.len());
                }
            }
            let t = self.0.neurons[k].forward(g, x);
            r.push(t);
            k = k + 1;
            proof {
                assert(g@.take(m0.len() as int) =~~= m0) by {
                    assert(g@.take(mprev.len() as int) == mprev);
                    assert forall|j: int| 0 <= j < m0.len() implies g@.take(m0.len() as int)[j]
                        == m0[j] by {
                        assert(g@[j] == g@.take(mprev.len() as int)[j]);
                        assert(mprev[j] == mprev.take(m0.len() as int)[j]);
                    }
                }
                lemma_vals_of_prefix(m0, mprev, self.neuron_seq()[k - 1].weight_ids());
                lemma_vals_of_prefix(m0, mprev, ids_of(x@));
                assert(mprev[self.neuron_seq()[k - 1].bias_id()] == mprev.take(
                    m0.len() as int,
                )[self.neuron_seq()[k - 1].bias_id()]);
                assert(g@[t.id()].data == outs[k - 1]);
                assert forall|j: int|
                    0 <= j < k implies 0 <= #[trigger] r@[j].id() < g@.len() && g@[r@[j].id()].data
                    == outs[j] by {
                    if j < k - 1 {
                        assert(g@[r@[j].id()] == g@.take(mprev.len() as int)[r@[j].id()]);
                        assert(g@[r@[j].id()] == mprev[r@[j].id()]);
                    }
                }
            }
        }
        proof {
            assert(vals_of(g@, ids_of(r@)) =~= outs);
            assert forall|j: int| 0 <= j < ids_of(r@).len() implies 0 <= #[trigger] ids_of(r@)[j]
                < g@.len() by {
                assert(0 <= r@[j].id() < g@.len());
            }
        }
        r
    }
}

impl Clone for Layer {
    /// Share the same neurons under a fresh handle collection.
    fn clone(&self) -> (res: Self)
        ensures
            res.neuron_seq().len() == self.neuron_seq().len(),
            forall|k: int|
                0 <= k < self.neuron_seq().len() ==> (#[trigger] res.neuron_seq()[k]).weight_ids()
                    == self.neuron_seq()[k].weight_ids() && res.neuron_seq()[k].bias_id()
                    == self.neuron_seq()[k].bias_id(),
    {
        Layer(LayerData { neurons: self.neurons() })
    }
}

impl Module for Layer {
    /// Each neuron's weights and bias, neuron by neuron.
    closed spec fn param_ids(&self) -> Seq<int> {
        params_cat(self.neuron_seq())
    }

    fn zero_grad(&self, g: &mut Graph) {
        let ghost m0 = g@;
        let ghost ns = self.neuron_seq();
        let mut k: usize = 0;
        proof {
            assert(zero_grads(m0, params_cat(ns.take(0))) =~~= m0);
        }
        while k < self.0.neurons.len()
            invariant
                g.wf(),
                k <= ns.len(),
                ns == self.neuron_seq(),
                ids_in(params_cat(ns), m0),
                g@.len() == m0.len(),
                g@ == zero_grads(m0, params_cat(ns.take(k as int))),
            decreases ns.len() - k,
        {
            proof {
                lemma_params_cat_in(ns, m0, k as int);
                assert forall|j: int|
                    0 <= j < ns[k as int].param_ids().len() implies 0 <= #[trigger] ns[k as int].param_ids()[j] < g@.len() by {
                    assert(0 <= ns[k as int].param_ids()[j] < m0.len());
                }
            }
            let ghost mprev = g@;
            self.0.neurons[k].zero_grad(g);
            k = k + 1;
            proof {
                lemma_zero_grads_concat(m0, params_cat(ns.take(k - 1)), ns[k - 1].param_ids());
                assert(ns.take(k as int).drop_last() =~= ns.take(k - 1));
                assert(ns.take(k as int).last() == ns[k - 1]);
            }
        }
        proof {
            assert(ns.take(ns.len() as int) =~= ns);
        }
    }
}

/// The concatenated parameter lists of a sequence of layers, in order.
pub open spec fn layer_params_cat(ls: Seq<Layer>) -> Seq<int>
    decreases ls.len(),
{
    if ls.len() == 0 {
        Seq::empty()
    } else {
        layer_params_cat(ls.drop_last()) + params_cat(ls.last().neuron_seq())
    }
}

/// If all concatenated parameters lie inside the graph, so does each
/// layer's own list.
proof fn lemma_layer_params_cat_in(ls: Seq<Layer>, m: Seq<NodeModel>, k: int)
    requires
        ids_in(layer_params_cat(ls), m),
        0 <= k < ls.len(),
    ensures
        ids_in(params_cat(ls[k].neuron_seq()), m),
    decreases ls.len(),
{
    let pre = layer_params_cat(ls.drop_last());
    let lastp = params_cat(ls.last().neuron_seq());
    if k == ls.len() - 1 {
        assert forall|j: int| 0 <= j < lastp.len() implies 0 <= #[trigger] lastp[j] < m.len() by {
            assert(layer_params_cat(ls)[pre.len() + j] == lastp[j]);
            assert(0 <= layer_params_cat(ls)[pre.len() + j] < m.len());
        }
    } else {
        assert forall|j: int| 0 <= j < pre.len() implies 0 <= #[trigger] pre[j] < m.len() by {
            assert(layer_params_cat(ls)[j] == pre[j]);
            assert(0 <= layer_params_cat(ls)[j] < m.len());
        }
        assert(ls.drop_last()[k] == ls[k]);
        lemma_layer_params_cat_in(ls.drop_last(), m, k);
    }
}

/// The output values of a whole network: each layer feeds the next, the
/// first one reading the given input values.
pub open spec fn mlp_out(m: Seq<NodeModel>, ls: Seq<Layer>, xv: Seq<u64>) -> Seq<u64>
    decreases ls.len(),
{
    if ls.len() == 0 {
        xv
    } else {
        layer_out(m, ls.last().neuron_seq(), mlp_out(m, ls.drop_last(), xv))
    }
}

/// The layers of one network.
pub struct MLPData {
    layers: Vec<Layer>,
}

/// A multilayer perceptron: a chain of fully connected tanh layers.
pub struct MLP(MLPData);

impl MLP {
    /// The layers, in order.
    pub closed spec fn layer_seq(self) -> Seq<Layer> {
        self.0.layers@
    }

    /// All parameters of every layer lie inside the graph.
    pub open spec fn wf_in(self, m: Seq<NodeModel>) -> bool {
        forall|k: int| 0 <= k < self.layer_seq().len() ==> (#[trigger] self.layer_seq()[k]).wf_in(m)
    }

    /// Construct a network taking `n_in` inputs, with one layer per entry of
    /// `n_outs`: each layer's neuron count is its entry, and each neuron has
    /// one weight per output of the stage before it.
    pub fn new(g: &mut Graph, n_in: usize, n_outs: Vec<usize>) -> (mlp: MLP)
        requires
            old(g).wf(),
        ensures
            mlp.layer_seq().len() == n_outs@.len(),
            forall|k: int|
                0 <= k < n_outs@.len() ==> (#[trigger] mlp.layer_seq()[k]).neuron_seq().len()
                    == n_outs@[k],
            mlp.wf_in(final(g)@),
            final(g)@.len() >= old(g)@.len(),
            final(g)@.take(old(g)@.len() as int) == old(g)@,
            final(g).wf(),
            values_consistent(old(g)@) ==> values_consistent(final(g)@),
    {
        let ghost m0 = g@;
        let mut layers: Vec<Layer> = Vec::new();
        let mut prev: usize = n_in;
        let mut k: usize = 0;
        proof {
            assert(g@.take(m0.len() as int) =~~= m0);
        }
        while k < n_outs.len()
            invariant
                g.wf(),
                k <= n_outs@.len(),
                layers@.len() == k,
                g@.len() >= m0.len(),
                g@.take(m0.len() as int) == m0,
                forall|j: int|
                    0 <= j < k ==> (#[trigger] layers@[j]).wf_in(g@) && layers@[j].neuron_seq().len()
                        == n_outs@[j],
                values_consistent(m0) ==> values_consistent(g@),
            decreases n_outs@.len() - k,
        {
            let ghost mprev = g@;
            let lyr = Layer::new(g, prev, n_outs[k]);
            prev = n_outs[k];
            layers.push(lyr);
            k = k + 1;
            proof {
                assert(g@.take(m0.len() as int) =~~= m0) by {
                    assert forall|j: int| 0 <= j < m0.len() implies g@.take(m0.len() as int)[j]
                        == m0[j] by {
                        assert(g@[j] == g@.take(mprev.len() as int)[j]);
                        assert(mprev[j] == mprev.take(m0.len() as int)[j]);
                    }
                }
                assert forall|j: int| 0 <= j < k implies (#[trigger] layers@[j]).wf_in(g@)
                    && layers@[j].neuron_seq().len() == n_outs@[j] by {
                    if j < k - 1 {
                        assert(layers@[j].wf_in(mprev));
                        assert forall|c: int|
                            0 <= c < layers@[j].neuron_seq().len() implies (
                        #[trigger] layers@[j].neuron_seq()[c]).wf_in(g@) by {
                            assert(layers@[j].neuron_seq()[c].wf_in(mprev));
                        }
                    } else {
                        assert(layers@[j] == lyr);
                    }
                }
            }
        }
        MLP(MLPData { layers })
    }

    /// The layer handles, in order.
    pub fn layers(&self) -> (r: Vec<Layer>)
        ensures
            r@.len() == self.layer_seq().len(),
            forall|k: int|
                0 <= k < r@.len() ==> (#[trigger] r@[k]).neuron_seq().len()
                    == self.layer_seq()[k].neuron_seq().len(),
    {
        let mut r: Vec<Layer> = Vec::new();
        let mut k: usize = 0;
        while k < self.0.layers.len()
            invariant
                k <= self.0.layers@.len(),
                r@.len() == k,
                forall|j: int|
                    0 <= j < k ==> (#[trigger] r@[j]).neuron_seq().len()
                        == self.0.layers@[j].neuron_seq().len(),
            decreases self.0.layers@.len() - k,
        {
            r.push(self.0.layers[k].clone());
            k = k + 1;
        }
        r
    }

    /// All parameter handles, one vector per layer.
    pub fn parameters(&self) -> (r: Vec<Vec<Tensor>>)
        ensures
            r@.len() == self.layer_seq().len(),
            forall|k: int|
                0 <= k < r@.len() ==> ids_of(#[trigger] r@[k]@) == params_cat(
                    self.layer_seq()[k].neuron_seq(),
                ),
    {
        let mut r: Vec<Vec<Tensor>> = Vec::new();
        let mut k: usize = 0;
        while k < self.0.layers.len()
            invariant
                k <= self.0.layers@.len(),
                r@.len() == k,
                forall|j: int|
                    0 <= j < k ==> ids_of(#[trigger] r@[j]@) == params_cat(
                        self.0.layers@[j].neuron_seq(),
                    ),
            decreases self.0.layers@.len() - k,
        {
            let ps = self.0.layers[k].parameters();
            r.push(ps);
            k = k + 1;
        }
        r
    }

    /// The forward pass of the whole network: feed the input vector through
    /// each layer in turn; with no layers, the input comes back unchanged.
    pub fn forward(&self, g: &mut Graph, x: &Vec<Tensor>) -> (r: Vec<Tensor>)
        requires
            old(g).wf(),
            self.wf_in(old(g)@),
            ids_in(ids_of(x@), old(g)@),
        ensures
            ids_in(ids_of(r@), final(g)@),
            vals_of(final(g)@, ids_of(r@)) == mlp_out(
                old(g)@,
                self.layer_seq(),
                vals_of(old(g)@, ids_of(x@)),
            ),
            final(g)@.len() >= old(g)@.len(),
            final(g)@.take(old(g)@.len() as int) == old(g)@,
            final(g).wf(),
            values_consistent(old(g)@) ==> values_consistent(final(g)@),
    {
        let ghost m0 = g@;
        let ghost xv = vals_of(m0, ids_of(x@));
        let ghost ls = self.layer_seq();
        let mut cur: Vec<Tensor> = Vec::new();
        let mut k: usize = 0;
        while k < x.len()
            invariant
                k <= x@.len(),
                cur@.len() == k,
                forall|j: int| 0 <= j < k ==> #[trigger] cur@[j] == x@[j],
            decreases x@.len() - k,
        {
            cur.push(x[k]);
            k = k + 1;
        }
        proof {
            assert(cur@ =~= x@);
            assert(ls.take(0) =~= Seq::<Layer>::empty());
            assert(vals_of(g@, ids_of(cur@)) == mlp_out(m0, ls.take(0), xv));
            assert(g@.take(m0.len() as int) =~~= m0);
        }
        let mut k: usize = 0;
        while k < self.0.layers.len()
            invariant
                g.wf(),
                k <= ls.len(),
                ls == self.layer_seq(),
                self.wf_in(m0),
                xv == vals_of(m0, ids_of(x@)),
                g@.len() >= m0.len(),
                g@.take(m0.len() as int) == m0,
                ids_in(ids_of(cur@), g@),
                vals_of(g@, ids_of(cur@)) == mlp_out(m0, ls.take(k as int), xv),
                values_consistent(m0) ==> values_consistent(g@),
            decreases ls.len() - k,
        {
            let ghost mprev = g@;
            let ghost cv = vals_of(mprev, ids_of(cur@));
            proof {
                assert(ls[k as int].wf_in(m0));
                assert forall|c: int|
                    0 <= c < ls[k as int].neuron_seq().len() implies (#[trigger] ls[k as int].neuron_seq()[c]).wf_in(g@) by {
                    assert(ls[k as int].neuron_seq()[c].wf_in(m0));
                }
            }
            let nxt = self.0.layers[k].forward(g, &cur);
            cur = nxt;
            k = k + 1;
            proof {
                assert(g@.take(m0.len() as int) =~~= m0) by {
                    assert forall|j: int| 0 <= j < m0.len() implies g@.take(m0.len() as int)[j]
                        == m0[j] by {
                        assert(g@[j] == g@.take(mprev.len() as int)[j]);
                        assert(mprev[j] == mprev.take(m0.len() as int)[j]);
                    }
                }
                lemma_layer_out_prefix(m0, mprev, ls[k - 1].neuron_seq(), cv);
                assert(ls.take(k as int).drop_last() =~= ls.take(k - 1));
                assert(ls.take(k as int).last() == ls[k - 1]);
                assert(vals_of(g@, ids_of(cur@)) == mlp_out(m0, ls.take(k as int), xv));
            }
        }
        proof {
            assert(ls.take(ls.len() as int) =~= ls);
        }
        cur
    }
}

impl Clone for MLP {
    /// Share the same layers under a fresh handle collection.
    fn clone(&self) -> (res: Self)
        ensures
            res.layer_seq().len() == self.layer_seq().len(),
    {
        MLP(MLPData { layers: self.layers() })
    }
}

impl Module for MLP {
    /// Each layer's parameters, layer by layer.
    closed spec fn param_ids(&self) -> Seq<int> {
        layer_params_cat(self.layer_seq())
    }

    fn zero_grad(&self, g: &mut Graph) {
        let ghost m0 = g@;
        let ghost ls = self.layer_seq();
        let mut k: usize = 0;
        proof {
            assert(zero_grads(m0, layer_params_cat(ls.take(0))) =~~= m0);
        }
        while k < self.0.layers.len()
            invariant
                g.wf(),
                k <= ls.len(),
                ls == self.layer_seq(),
                ids_in(layer_params_cat(ls), m0),
                g@.len() == m0.len(),
                g@ == zero_grads(m0, layer_params_cat(ls.take(k as int))),
            decreases ls.len() - k,
        {
            proof {
                lemma_layer_params_cat_in(ls, m0, k as int);
                assert forall|j: int|
                    0 <= j < params_cat(ls[k as int].neuron_seq()).len() implies 0
                    <= #[trigger] params_cat(ls[k as int].neuron_seq())[j] < g@.len() by {
                    assert(0 <= params_cat(ls[k as int].neuron_seq())[j] < m0.len());
                }
            }
            self.0.layers[k].zero_grad(g);
            k = k + 1;
            proof {
                lemma_zero_grads_concat(
                    m0,
                    layer_params_cat(ls.take(k - 1)),
                    params_cat(ls[k - 1].neuron_seq()),
                );
                assert(ls.take(k as int).drop_last() =~= ls.take(k - 1));
                assert(ls.take(k as int).last() == ls[k - 1]);
            }
        }
        proof {
            assert(ls.take(ls.len() as int) =~= ls);
        }
    }
}

} // verus!
