use vstd::prelude::*;

use crate::graph::{Tape, Operation, Value};
use crate::scalar::Scalar;

verus! {

/// A neuron: `tanh(w_0 * x_0 + ... + w_{n-1} * x_{n-1} + bias)`, whose
/// weights and bias are leaves of a graph.
pub struct Neuron {
    weights: Vec<Value>,
    bias: Value,
}

/// Every handle of `vs` belongs to `g`.
pub open spec fn all_in<S: Scalar>(vs: Seq<Value>, g: &Tape<S>) -> bool {
    forall|i: int| 0 <= i < vs.len() ==> #[trigger] vs[i].index < g.size()
}

/// Node `at` of `g` is the product of `w` and `x`, and holds the product of
/// their values.
pub open spec fn product_at<S: Scalar>(g: &Tape<S>, at: int, w: Value, x: Value) -> bool {
    &&& g.node_is((Value { index: at as usize }), Some(Operation::Multiply), seq![w.index, x.index])
    &&& g.data_of(at) == S::spec_times(g.data_of(w.index as int), g.data_of(x.index as int))
}

/// From node `base` on, `g` holds `tanh(sum(w_i * x_i) + bias)` of neuron
/// `n` on inputs `x`, as [`Neuron::forward`] lays it out: the products, the
/// zero leaf and the additions of the sum, the addition of the bias, the tanh.
pub open spec fn neuron_built_at<S: Scalar>(g: &Tape<S>, n: Neuron, x: Seq<Value>, base: nat) -> bool {
    &&& forall|i: int| 0 <= i < x.len() ==> (#[trigger] x[i]).index < base && n.weight_handles()[i].index < base
    &&& n.bias_handle().index < base
    &&& forall|i: int| 0 <= i < x.len() ==> #[trigger] product_at(g, base + i, n.weight_handles()[i], x[i])
    &&& g.data_of((base + x.len()) as int) == g.zero()
    &&& g.node_is((Value { index: (base + x.len()) as usize }), None, seq![])
    &&& forall|i: int| 0 <= i < x.len() ==> #[trigger] g.sum_step(base + x.len(), consecutive(base, x.len()), i)
    &&& g.node_is(
        (Value { index: (base + 2 * x.len() + 1) as usize }),
        Some(Operation::Add),
        seq![n.bias_handle().index, (base + 2 * x.len()) as usize],
    )
    &&& g.node_is(
        (Value { index: (base + 2 * x.len() + 2) as usize }),
        Some(Operation::Tanh),
        seq![(base + 2 * x.len() + 1) as usize],
    )
    &&& g.data_of((base + 2 * x.len() + 1) as int) == S::spec_plus(
        g.data_of((base + 2 * x.len()) as int),
        g.data_of(n.bias_handle().index as int),
    )
    &&& g.data_of((base + 2 * x.len() + 2) as int) == S::spec_tanh(g.data_of((base + 2 * x.len() + 1) as int))
}

/// `w_0 * x_0 + ... + w_{k-1} * x_{k-1}` over the values of `g`, added from
/// zero in that order.
pub open spec fn weighted_sum<S: Scalar>(g: &Tape<S>, n: Neuron, x: Seq<Value>, k: int) -> S
    decreases k,
{
    if k <= 0 {
        S::spec_zero()
    } else {
        S::spec_plus(
            weighted_sum(g, n, x, k - 1),
            S::spec_times(g.data_of(n.weight_handles()[k - 1].index as int), g.data_of(x[k - 1].index as int)),
        )
    }
}

/// The value of neuron `n` on inputs `x`: `tanh(sum(w_i * x_i) + bias)`.
pub open spec fn neuron_value<S: Scalar>(g: &Tape<S>, n: Neuron, x: Seq<Value>) -> S {
    S::spec_tanh(S::spec_plus(weighted_sum(g, n, x, x.len() as int), g.data_of(n.bias_handle().index as int)))
}

/// The output node of a neuron holds the neuron's value.
pub proof fn lemma_neuron_output_value<S: Scalar>(g: &Tape<S>, n: Neuron, x: Seq<Value>, v: Value)
    requires
        g.wf(),
        is_neuron_output(g, n, x, v),
    ensures
        g.data_of(v.index as int) == neuron_value(g, n, x),
{
    let base = (v.index - 2 * x.len() - 2) as nat;
    lemma_partial_sums(g, n, x, base, x.len() as int);
}

/// Node `base + |x| + k` of a laid-out neuron holds the first `k` terms of
/// its weighted sum.
proof fn lemma_partial_sums<S: Scalar>(g: &Tape<S>, n: Neuron, x: Seq<Value>, base: nat, k: int)
    requires
        g.wf(),
        neuron_built_at(g, n, x, base),
        base + 2 * x.len() + 2 <= usize::MAX,
        0 <= k <= x.len(),
    ensures
        g.data_of(base + x.len() + k) == weighted_sum(g, n, x, k),
    decreases k,
{
    if k > 0 {
        lemma_partial_sums(g, n, x, base, k - 1);
        assert(g.sum_step(base + x.len(), consecutive(base, x.len()), k - 1));
        assert(product_at(g, base + k - 1, n.weight_handles()[k - 1], x[k - 1]));
        assert(consecutive(base, x.len())[k - 1].index == base + k - 1);
    }
}

/// `v` is the output of neuron `n` on inputs `x`, laid out as
/// [`Neuron::forward`] builds it.
pub open spec fn is_neuron_output<S: Scalar>(g: &Tape<S>, n: Neuron, x: Seq<Value>, v: Value) -> bool {
    &&& v.index >= 2 * x.len() + 2
    &&& neuron_built_at(g, n, x, (v.index - 2 * x.len() - 2) as nat)
}

/// `y` holds, in order, the output of each neuron of layer `l` on `x`.
pub open spec fn layer_outputs<S: Scalar>(g: &Tape<S>, l: SizedLayer, x: Seq<Value>, y: Seq<Value>) -> bool {
    &&& y.len() == l.neuron_list().len()
    &&& forall|i: int| 0 <= i < y.len() ==> is_neuron_output(g, l.neuron_list()[i], x, #[trigger] y[i])
}

proof fn lemma_layer_outputs_extends<S: Scalar>(g: &Tape<S>, h: &Tape<S>, l: SizedLayer, x: Seq<Value>, y: Seq<Value>)
    requires
        layer_outputs(g, l, x, y),
        all_in(y, g),
        h.extends(g),
    ensures
        layer_outputs(h, l, x, y),
{
    assert forall|i: int| 0 <= i < y.len() implies is_neuron_output(h, l.neuron_list()[i], x, #[trigger] y[i]) by {
        assert(is_neuron_output(g, l.neuron_list()[i], x, y[i]));
        assert(y[i].index < g.size());
        lemma_neuron_built_extends(g, h, l.neuron_list()[i], x, (y[i].index - 2 * x.len() - 2) as nat);
    }
}

/// A neuron laid out from `base` on in `g` stays so in a tape that extends `g`.
proof fn lemma_neuron_built_extends<S: Scalar>(g: &Tape<S>, h: &Tape<S>, n: Neuron, x: Seq<Value>, base: nat)
    requires
        neuron_built_at(g, n, x, base),
        base + 2 * x.len() + 2 < g.size(),
        h.extends(g),
    ensures
        neuron_built_at(h, n, x, base),
{
    assert forall|i: int| 0 <= i < x.len() implies #[trigger] product_at(h, base + i, n.weight_handles()[i], x[i]) by {
        assert(product_at(g, base + i, n.weight_handles()[i], x[i]));
    }
    assert forall|i: int| 0 <= i < x.len() implies #[trigger] h.sum_step(base + x.len(), consecutive(base, x.len()), i) by {
        assert(g.sum_step(base + x.len(), consecutive(base, x.len()), i));
    }
}

/// The handles `base`, `base + 1`, ..., `base + n - 1`.
pub open spec fn consecutive(base: nat, n: nat) -> Seq<Value> {
    Seq::new(n, |j: int| Value { index: (base + j) as usize })
}

impl Neuron {
    pub closed spec fn weight_handles(&self) -> Seq<Value> {
        self.weights@
    }

    pub closed spec fn bias_handle(&self) -> Value {
        self.bias
    }

    /// Number of inputs.
    pub open spec fn arity(&self) -> nat {
        self.weight_handles().len()
    }

    /// The weights and the bias are nodes of `g`.
    pub open spec fn wf_in<S: Scalar>(&self, g: &Tape<S>) -> bool {
        &&& all_in(self.weight_handles(), g)
        &&& self.bias_handle().index < g.size()
    }

    /// A neuron whose weights are new leaves holding `weights`, in order,
    /// followed by a new leaf holding `bias`.
    pub fn new<S: Scalar>(g: &mut Tape<S>, weights: &Vec<S>, bias: S) -> (n: Neuron)
        requires
            old(g).wf(),
        ensures
            final(g).wf(),
            final(g).extends(old(g)),
            final(g).size() == old(g).size() + weights@.len() + 1,
            n.wf_in(final(g)),
            n.arity() == weights@.len(),
            forall|i: int|
                0 <= i < weights@.len() ==> {
                    &&& #[trigger] n.weight_handles()[i].index == old(g).size() + i
                    &&& final(g).data_of(old(g).size() + i) == weights@[i]
                    &&& final(g).node_is(n.weight_handles()[i], None, seq![])
                },
            n.bias_handle().index == old(g).size() + weights@.len(),
            final(g).data_of((old(g).size() + weights@.len()) as int) == bias,
            final(g).node_is(n.bias_handle(), None, seq![]),
    {
        let mut ws: Vec<Value> = Vec::new();
        let mut i: usize = 0;
        while i < weights.len()
            invariant
                g.wf(),
                g.extends(old(g)),
                i <= weights@.len(),
                g.size() == old(g).size() + i,
                ws@.len() == i,
                forall|j: int|
                    0 <= j < i ==> {
                        &&& #[trigger] ws@[j].index == old(g).size() + j
                        &&& g.data_of(old(g).size() + j) == weights@[j]
                        &&& g.node_is(ws@[j], None, seq![])
                    },
            decreases weights@.len() - i,
        {
            let v = g.leaf(weights[i]);
            ws.push(v);
            i = i + 1;
        }
        let b = g.leaf(bias);
        Neuron { weights: ws, bias: b }
    }

    /// Builds `tanh(sum(w_i * x_i) + bias)` onto `g`: first the products
    /// `w_i * x_i`, then their sum from zero (see [`Tape::sum`]), then the
    /// addition of the bias, then the tanh node, which is returned.
    pub fn forward<S: Scalar>(&self, g: &mut Tape<S>, x: &Vec<Value>) -> (v: Value)
        requires
            old(g).wf(),
            self.wf_in(old(g)),
            all_in(x@, old(g)),
            x@.len() == self.arity(),
        ensures
            final(g).wf(),
            final(g).extends(old(g)),
            final(g).size() == old(g).size() + 2 * x@.len() + 3,
            v.index == old(g).size() + 2 * x@.len() + 2,
            neuron_built_at(final(g), *self, x@, old(g).size()),
            final(g).data_of(v.index as int) == neuron_value(final(g), *self, x@),
    {
        let ghost base = old(g).size();
        let mut products: Vec<Value> = Vec::new();
        let mut i: usize = 0;
        while i < x.len()
            invariant
                g.wf(),
                g.extends(old(g)),
                self.wf_in(old(g)),
                all_in(x@, old(g)),
                x@.len() == self.arity(),
                i <= x@.len(),
                g.size() == base + i,
                products@.len() == i,
                forall|j: int| 0 <= j < i ==> #[trigger] products@[j].index == base + j,
                forall|j: int|
                    0 <= j < i ==> #[trigger] product_at(g, base + j, self.weight_handles()[j], x@[j]),
            decreases x@.len() - i,
        {
            let ghost before = *g;
            let p = g.multiply(self.weights[i], x[i]);
            products.push(p);
            proof {
                assert forall|j: int| 0 <= j < i + 1 implies #[trigger] product_at(g, base + j, self.weight_handles()[j], x@[j]) by {
                    if j < i {
                        assert(product_at(&before, base + j, self.weight_handles()[j], x@[j]));
                    }
                }
            }
            i = i + 1;
        }
        let ghost mid = *g;
        let s = g.sum(&products);
        assert forall|j: int| 0 <= j < x@.len() implies products@[j] == #[trigger] consecutive(base, x@.len())[j] by {
            assert(products@[j].index == base + j);
        }
        assert(products@ =~= consecutive(base, x@.len()));
        assert forall|j: int| 0 <= j < x@.len() implies #[trigger] product_at(g, base + j, self.weight_handles()[j], x@[j]) by {
            assert(product_at(&mid, base + j, self.weight_handles()[j], x@[j]));
        }
        let ghost after_sum = *g;
        let t = g.add(s, self.bias);
        assert forall|j: int| 0 <= j < x@.len() implies #[trigger] g.sum_step(
            base + x@.len(),
            consecutive(base, x@.len()),
            j,
        ) by {
            assert(after_sum.sum_step(base + x@.len(), products@, j));
        }
        let ghost after_add = *g;
        let v = t.tanh(g);
        assert forall|j: int| 0 <= j < x@.len() implies #[trigger] g.sum_step(
            base + x@.len(),
            consecutive(base, x@.len()),
            j,
        ) by {
            assert(after_add.sum_step(base + x@.len(), products@, j));
        }
        assert forall|j: int| 0 <= j < x@.len() implies #[trigger] product_at(g, base + j, self.weight_handles()[j], x@[j]) by {
            assert(product_at(&after_sum, base + j, self.weight_handles()[j], x@[j]));
            assert(product_at(&after_add, base + j, self.weight_handles()[j], x@[j]));
        }
        proof {
            lemma_neuron_output_value(g, *self, x@, v);
        }
        v
    }

    /// The weights, in order, then the bias.
    pub fn parameters(&self) -> (p: Vec<Value>)
        ensures
            p@ == self.weight_handles().push(self.bias_handle()),
    {
        let mut p = self.weights.clone();
        p.push(self.bias);
        p
    }
}

/// The weights and bias of each neuron of `ns`, neuron after neuron.
pub open spec fn neuron_parameters(ns: Seq<Neuron>) -> Seq<Value>
    decreases ns.len(),
{
    if ns.len() == 0 {
        seq![]
    } else {
        neuron_parameters(ns.drop_last()) + ns.last().weight_handles().push(ns.last().bias_handle())
    }
}

/// A layer of neurons that all read the same inputs.
pub struct SizedLayer {
    inputs: usize,
    neurons: Vec<Neuron>,
}

impl SizedLayer {
    pub closed spec fn input_count(&self) -> nat {
        self.inputs as nat
    }

    pub closed spec fn neuron_list(&self) -> Seq<Neuron> {
        self.neurons@
    }

    /// Every neuron reads `input_count()` inputs and lives in `g`.
    pub open spec fn wf_in<S: Scalar>(&self, g: &Tape<S>) -> bool {
        forall|i: int|
            0 <= i < self.neuron_list().len() ==> {
                &&& (#[trigger] self.neuron_list()[i]).wf_in(g)
                &&& self.neuron_list()[i].arity() == self.input_count()
            }
    }

    /// A layer of `weights.len()` neurons reading `inputs` inputs each:
    /// neuron `i` is built by [`Neuron::new`] from `weights[i]` and
    /// `biases[i]`, neuron after neuron.
    pub fn new<S: Scalar>(g: &mut Tape<S>, inputs: usize, weights: &Vec<Vec<S>>, biases: &Vec<S>) -> (l: SizedLayer)
        requires
            old(g).wf(),
            biases@.len() == weights@.len(),
            forall|i: int| 0 <= i < weights@.len() ==> #[trigger] weights@[i]@.len() == inputs,
        ensures
            final(g).wf(),
            final(g).extends(old(g)),
            l.wf_in(final(g)),
            l.input_count() == inputs,
            l.neuron_list().len() == weights@.len(),
            forall|i: int, j: int|
                0 <= i < weights@.len() && 0 <= j < inputs ==> {
                    &&& final(g).data_of(#[trigger] l.neuron_list()[i].weight_handles()[j].index as int)
                        == weights@[i]@[j]
                    &&& final(g).node_is(l.neuron_list()[i].weight_handles()[j], None, seq![])
                    &&& l.neuron_list()[i].weight_handles()[j].index == old(g).size() + i * (inputs + 1) + j
                },
            forall|i: int|
                0 <= i < weights@.len() ==> {
                    &&& final(g).data_of(#[trigger] l.neuron_list()[i].bias_handle().index as int)
                        == biases@[i]
                    &&& final(g).node_is(l.neuron_list()[i].bias_handle(), None, seq![])
                    &&& l.neuron_list()[i].bias_handle().index == old(g).size() + i * (inputs + 1) + inputs
                },
            final(g).size() == old(g).size() + weights@.len() * (inputs + 1),
    {
        let mut neurons: Vec<Neuron> = Vec::new();
        let mut i: usize = 0;
        while i < weights.len()
            invariant
                g.wf(),
                g.extends(old(g)),
                i <= weights@.len(),
                biases@.len() == weights@.len(),
                forall|k: int| 0 <= k < weights@.len() ==> #[trigger] weights@[k]@.len() == inputs,
                neurons@.len() == i,
                forall|k: int|
                    0 <= k < i ==> {
                        &&& (#[trigger] neurons@[k]).wf_in(g)
                        &&& neurons@[k].arity() == inputs
                    },
                forall|k: int, j: int|
                    0 <= k < i && 0 <= j < inputs ==> {
                        &&& g.data_of(#[trigger] neurons@[k].weight_handles()[j].index as int)
                            == weights@[k]@[j]
                        &&& g.node_is(neurons@[k].weight_handles()[j], None, seq![])
                        &&& neurons@[k].weight_handles()[j].index == old(g).size() + k * (inputs + 1) + j
                    },
                forall|k: int|
                    0 <= k < i ==> {
                        &&& g.data_of(#[trigger] neurons@[k].bias_handle().index as int) == biases@[k]
                        &&& g.node_is(neurons@[k].bias_handle(), None, seq![])
                        &&& neurons@[k].bias_handle().index == old(g).size() + k * (inputs + 1) + inputs
                    },
                g.size() == old(g).size() + i * (inputs + 1),
            decreases weights@.len() - i,
        {
            let ghost before = *g;
            let n = Neuron::new(g, &weights[i], biases[i]);
            neurons.push(n);
            proof {
                let ii = i as int;
                let w = inputs as int;
                assert((ii + 1) * (w + 1) == ii * (w + 1) + w + 1) by (nonlinear_arith);
                assert forall|k: int| 0 <= k < i + 1 implies {
                    &&& (#[trigger] neurons@[k]).wf_in(g)
                    &&& neurons@[k].arity() == inputs
                } by {
                    if k < i {
                        assert(neurons@[k].wf_in(&before));
                        assert(all_in(neurons@[k].weight_handles(), g));
                    }
                }
                assert forall|k: int, j: int|
                    0 <= k < i + 1 && 0 <= j < inputs implies {
                        &&& g.data_of(#[trigger] neurons@[k].weight_handles()[j].index as int)
                            == weights@[k]@[j]
                        &&& g.node_is(neurons@[k].weight_handles()[j], None, seq![])
                        &&& neurons@[k].weight_handles()[j].index == old(g).size() + k * (inputs + 1) + j
                    } by {
                    if k < i {
                        assert(before.data_of(neurons@[k].weight_handles()[j].index as int) == weights@[k]@[j]);
                        assert(all_in(neurons@[k].weight_handles(), &before));
                    } else {
                        assert(n.weight_handles()[j].index == before.size() + j);
                    }
                }
                assert forall|k: int|
                    0 <= k < i + 1 implies {
                        &&& g.data_of(#[trigger] neurons@[k].bias_handle().index as int) == biases@[k]
                        &&& g.node_is(neurons@[k].bias_handle(), None, seq![])
                        &&& neurons@[k].bias_handle().index == old(g).size() + k * (inputs + 1) + inputs
                    } by {
                    if k < i {
                        assert(before.data_of(neurons@[k].bias_handle().index as int) == biases@[k]);
                    }
                }
            }
            i = i + 1;
        }
        SizedLayer { inputs, neurons }
    }

    /// Number of inputs each neuron reads.
    pub fn inputs(&self) -> (n: usize)
        ensures
            n == self.input_count(),
    {
        self.inputs
    }

    /// Number of neurons, that is of outputs.
    pub fn outputs(&self) -> (n: usize)
        ensures
            n == self.neuron_list().len(),
    {
        self.neurons.len()
    }

    /// One output per neuron, in order: neuron `i` applied to `x` by
    /// [`Neuron::forward`].
    pub fn forward<S: Scalar>(&self, g: &mut Tape<S>, x: &Vec<Value>) -> (y: Vec<Value>)
        requires
            old(g).wf(),
            self.wf_in(old(g)),
            all_in(x@, old(g)),
            x@.len() == self.input_count(),
        ensures
            final(g).wf(),
            final(g).extends(old(g)),
            self.wf_in(final(g)),
            y@.len() == self.neuron_list().len(),
            all_in(y@, final(g)),
            layer_outputs(final(g), *self, x@, y@),
    {
        let mut y: Vec<Value> = Vec::new();
        let mut i: usize = 0;
        while i < self.neurons.len()
            invariant
                g.wf(),
                g.extends(old(g)),
                self.wf_in(g),
                all_in(x@, g),
                x@.len() == self.input_count(),
                i <= self.neuron_list().len(),
                y@.len() == i,
                all_in(y@, g),
                forall|k: int| 0 <= k < i ==> is_neuron_output(g, self.neuron_list()[k], x@, #[trigger] y@[k]),
            decreases self.neuron_list().len() - i,
        {
            let ghost before = *g;
            assert(self.neurons@[i as int].wf_in(g));
            let v = self.neurons[i].forward(g, x);
            y.push(v);
            proof {
                assert forall|k: int| 0 <= k < self.neuron_list().len() implies {
                    &&& (#[trigger] self.neuron_list()[k]).wf_in(g)
                    &&& self.neuron_list()[k].arity() == self.input_count()
                } by {
                    assert(self.neuron_list()[k].wf_in(&before));
                    assert(all_in(self.neuron_list()[k].weight_handles(), g));
                }
                assert forall|k: int| 0 <= k < i + 1 implies is_neuron_output(g, self.neuron_list()[k], x@, #[trigger] y@[k]) by {
                    if k < i {
                        assert(is_neuron_output(&before, self.neuron_list()[k], x@, y@[k]));
                        assert(y@[k].index < before.size());
                        lemma_neuron_built_extends(
                            &before,
                            g,
                            self.neuron_list()[k],
                            x@,
                            (y@[k].index - 2 * x@.len() - 2) as nat,
                        );
                    } else {
                        assert(y@[k] == v);
                    }
                }
                assert(all_in(y@, g));
            }
            i = i + 1;
        }
        y
    }

    /// The weights and bias of each neuron, neuron after neuron.
    pub fn parameters(&self) -> (p: Vec<Value>)
        ensures
            p@ == neuron_parameters(self.neuron_list()),
    {
        let mut p: Vec<Value> = Vec::new();
        let mut i: usize = 0;
        while i < self.neurons.len()
            invariant
                i <= self.neuron_list().len(),
                p@ == neuron_parameters(self.neuron_list().take(i as int)),
            decreases self.neuron_list().len() - i,
        {
            let mut q = self.neurons[i].parameters();
            p.append(&mut q);
            assert(self.neuron_list().take(i + 1).drop_last() =~= self.neuron_list().take(i as int));
            i = i + 1;
        }
        assert(self.neuron_list().take(i as int) =~= self.neuron_list());
        p
    }
}

proof fn lemma_neuron_parameters_in<S: Scalar>(ns: Seq<Neuron>, g: &Tape<S>)
    requires
        forall|i: int| 0 <= i < ns.len() ==> (#[trigger] ns[i]).wf_in(g),
    ensures
        all_in(neuron_parameters(ns), g),
    decreases ns.len(),
{
    if ns.len() > 0 {
        lemma_neuron_parameters_in(ns.drop_last(), g);
        assert(ns[ns.len() - 1].wf_in(g));
    }
}

/// A stage of a perceptron: it reads values of a tape and adds nodes that
/// compute its outputs.
pub trait Layer<S: Scalar>: Sized {
    /// The nodes the layer reads its parameters from belong to `g`.
    spec fn fits(&self, g: &Tape<S>) -> bool;

    /// How many values the layer reads.
    spec fn input_len(&self) -> nat;

    /// How many values the layer gives.
    spec fn output_len(&self) -> nat;

    /// Builds the outputs of the layer on inputs `x`.
    fn forward(&self, g: &mut Tape<S>, x: &Vec<Value>) -> (y: Vec<Value>)
        requires
            old(g).wf(),
            self.fits(old(g)),
            all_in(x@, old(g)),
            x@.len() == self.input_len(),
        ensures
            final(g).wf(),
            final(g).extends(old(g)),
            self.fits(final(g)),
            y@.len() == self.output_len(),
            all_in(y@, final(g)),
    ;

    /// The leaves that hold the layer's parameters.
    fn parameters(&self) -> (p: Vec<Value>);
}

impl<S: Scalar> Layer<S> for SizedLayer {
    open spec fn fits(&self, g: &Tape<S>) -> bool {
        self.wf_in(g)
    }

    open spec fn input_len(&self) -> nat {
        self.input_count()
    }

    open spec fn output_len(&self) -> nat {
        self.neuron_list().len()
    }

    fn forward(&self, g: &mut Tape<S>, x: &Vec<Value>) -> (y: Vec<Value>) {
        SizedLayer::forward(self, g, x)
    }

    fn parameters(&self) -> (p: Vec<Value>) {
        SizedLayer::parameters(self)
    }
}

/// The parameters of each layer of `ls`, layer after layer.
pub open spec fn layer_parameters(ls: Seq<SizedLayer>) -> Seq<Value>
    decreases ls.len(),
{
    if ls.len() == 0 {
        seq![]
    } else {
        layer_parameters(ls.drop_last()) + neuron_parameters(ls.last().neuron_list())
    }
}

proof fn lemma_layer_parameters_in<S: Scalar>(ls: Seq<SizedLayer>, g: &Tape<S>)
    requires
        forall|i: int| 0 <= i < ls.len() ==> (#[trigger] ls[i]).wf_in(g),
    ensures
        all_in(layer_parameters(ls), g),
    decreases ls.len(),
{
    if ls.len() > 0 {
        lemma_layer_parameters_in(ls.drop_last(), g);
        let last = ls[ls.len() - 1];
        assert(last.wf_in(g));
        assert forall|i: int| 0 <= i < last.neuron_list().len() implies (#[trigger] last.neuron_list()[i]).wf_in(g) by {
        }
        lemma_neuron_parameters_in(last.neuron_list(), g);
    }
}

/// A multilayer perceptron: layers applied one after the other, each reading
/// the outputs of the one before.
pub struct Mlp {
    inputs: usize,
    outputs: usize,
    layers: Vec<SizedLayer>,
}

impl Mlp {
    pub closed spec fn input_count(&self) -> nat {
        self.inputs as nat
    }

    pub closed spec fn output_count(&self) -> nat {
        self.outputs as nat
    }

    pub closed spec fn layer_list(&self) -> Seq<SizedLayer> {
        self.layers@
    }

    /// There is a layer; the first reads the inputs, each next one reads as
    /// many values as the one before has neurons, and the last has one neuron
    /// per output.
    pub open spec fn chained(&self) -> bool {
        let ls = self.layer_list();
        &&& ls.len() > 0
        &&& ls[0].input_count() == self.input_count()
        &&& forall|k: int| 0 <= k < ls.len() - 1 ==> (#[trigger] ls[k + 1]).input_count() == ls[k].neuron_list().len()
        &&& ls.last().neuron_list().len() == self.output_count()
    }

    pub open spec fn wf_in<S: Scalar>(&self, g: &Tape<S>) -> bool {
        &&& self.chained()
        &&& forall|k: int| 0 <= k < self.layer_list().len() ==> (#[trigger] self.layer_list()[k]).wf_in(g)
    }

    /// A perceptron made of `layer` alone.
    pub fn from_layer(layer: SizedLayer) -> (m: Mlp)
        ensures
            m.layer_list() == seq![layer],
            m.input_count() == layer.input_count(),
            m.output_count() == layer.neuron_list().len(),
            m.chained(),
    {
        let inputs = layer.inputs();
        let outputs = layer.outputs();
        Mlp { inputs, outputs, layers: vec![layer] }
    }

    /// This perceptron followed by `layer`, which reads its outputs.
    pub fn add_layer(self, layer: SizedLayer) -> (m: Mlp)
        requires
            self.chained(),
            layer.input_count() == self.output_count(),
        ensures
            m.layer_list() == self.layer_list().push(layer),
            m.input_count() == self.input_count(),
            m.output_count() == layer.neuron_list().len(),
            m.chained(),
    {
        let outputs = layer.outputs();
        let mut layers = self.layers;
        layers.push(layer);
        let m = Mlp { inputs: self.inputs, outputs, layers };
        assert forall|k: int| 0 <= k < m.layer_list().len() - 1 implies (#[trigger] m.layer_list()[k
            + 1]).input_count() == m.layer_list()[k].neuron_list().len() by {
            if k + 1 < self.layer_list().len() {
                assert(self.layer_list()[k + 1] == m.layer_list()[k + 1]);
            }
        }
        m
    }

    /// The outputs of the last layer, each layer applied by
    /// [`SizedLayer::forward`] to the outputs of the one before: `stages[0]`
    /// is `x`, `stages[k + 1]` what layer `k` gives on `stages[k]`, and the
    /// last stage is returned.
    pub fn forward<S: Scalar>(&self, g: &mut Tape<S>, x: &Vec<Value>) -> (y: Vec<Value>)
        requires
            old(g).wf(),
            self.wf_in(old(g)),
            all_in(x@, old(g)),
            x@.len() == self.input_count(),
        ensures
            final(g).wf(),
            final(g).extends(old(g)),
            self.wf_in(final(g)),
            y@.len() == self.output_count(),
            all_in(y@, final(g)),
            exists|stages: Seq<Seq<Value>>|
                #![trigger stages.len()]
                stages.len() == self.layer_list().len() + 1 && stages[0] == x@ && stages.last() == y@
                    && forall|k: int|
                    0 <= k < self.layer_list().len() ==> layer_outputs(
                        final(g),
                        #[trigger] self.layer_list()[k],
                        stages[k],
                        stages[k + 1],
                    ),
    {
        let ghost ls = self.layer_list();
        let mut cur = self.layers[0].forward(g, x);
        let ghost mut stages: Seq<Seq<Value>> = seq![x@, cur@];
        proof {
            assert forall|k: int| 0 <= k < ls.len() implies (#[trigger] ls[k]).wf_in(g) by {
                assert(ls[k].wf_in(old(g)));
                assert forall|i: int| 0 <= i < ls[k].neuron_list().len() implies {
                    &&& (#[trigger] ls[k].neuron_list()[i]).wf_in(g)
                    &&& ls[k].neuron_list()[i].arity() == ls[k].input_count()
                } by {
                    assert(all_in(ls[k].neuron_list()[i].weight_handles(), g));
                }
            }
            assert(layer_outputs(g, ls[0], stages[0], stages[1]));
        }
        let mut k: usize = 1;
        while k < self.layers.len()
            invariant
                ls == self.layer_list(),
                1 <= k <= ls.len(),
                self.chained(),
                g.wf(),
                g.extends(old(g)),
                self.wf_in(g),
                cur@.len() == ls[k - 1].neuron_list().len(),
                all_in(cur@, g),
                stages.len() == k + 1,
                stages[0] == x@,
                stages[k as int] == cur@,
                forall|j: int| 0 <= j <= k ==> all_in(#[trigger] stages[j], g),
                forall|j: int| 0 <= j < k ==> layer_outputs(g, #[trigger] ls[j], stages[j], stages[j + 1]),
            decreases ls.len() - k,
        {
            let ghost before = *g;
            let ghost km = k - 1;
            assert(ls[km + 1].input_count() == ls[km].neuron_list().len());
            cur = self.layers[k].forward(g, &cur);
            proof {
                assert forall|j: int| 0 <= j < ls.len() implies (#[trigger] ls[j]).wf_in(g) by {
                    assert(ls[j].wf_in(&before));
                    assert forall|i: int| 0 <= i < ls[j].neuron_list().len() implies {
                        &&& (#[trigger] ls[j].neuron_list()[i]).wf_in(g)
                        &&& ls[j].neuron_list()[i].arity() == ls[j].input_count()
                    } by {
                        assert(ls[j].neuron_list()[i].wf_in(&before));
                        assert(all_in(ls[j].neuron_list()[i].weight_handles(), g));
                    }
                }
                let old_stages = stages;
                stages = stages.push(cur@);
                assert forall|j: int| 0 <= j <= k + 1 implies all_in(#[trigger] stages[j], g) by {
                    if j <= k {
                        assert(stages[j] == old_stages[j]);
                        assert(all_in(old_stages[j], &before));
                    }
                }
                assert forall|j: int| 0 <= j < k + 1 implies layer_outputs(g, #[trigger] ls[j], stages[j], stages[j + 1]) by {
                    if j < k {
                        assert(stages[j] == old_stages[j] && stages[j + 1] == old_stages[j + 1]);
                        assert(layer_outputs(&before, ls[j], old_stages[j], old_stages[j + 1]));
                        assert(all_in(old_stages[j + 1], &before));
                        lemma_layer_outputs_extends(&before, g, ls[j], old_stages[j], old_stages[j + 1]);
                    }
                }
            }
            k = k + 1;
        }
        cur
    }

    /// The parameters of each layer, layer after layer.
    pub fn parameters(&self) -> (p: Vec<Value>)
        ensures
            p@ == layer_parameters(self.layer_list()),
    {
        let mut p: Vec<Value> = Vec::new();
        let mut i: usize = 0;
        while i < self.layers.len()
            invariant
                i <= self.layer_list().len(),
                p@ == layer_parameters(self.layer_list().take(i as int)),
            decreases self.layer_list().len() - i,
        {
            let mut q = self.layers[i].parameters();
            p.append(&mut q);
            assert(self.layer_list().take(i + 1).drop_last() =~= self.layer_list().take(i as int));
            i = i + 1;
        }
        assert(self.layer_list().take(i as int) =~= self.layer_list());
        p
    }

    /// Resets the gradient of every parameter to zero; nothing else changes.
    pub fn zero_grad<S: Scalar>(&self, g: &mut Tape<S>)
        requires
            old(g).wf(),
            self.wf_in(old(g)),
        ensures
            final(g).wf(),
            final(g).same_shape(old(g)),
            final(g).same_data(old(g)),
            forall|j: int|
                0 <= j < layer_parameters(self.layer_list()).len() ==> final(g).gradient_of(
                    #[trigger] layer_parameters(self.layer_list())[j].index as int,
                ) == old(g).zero(),
            forall|x: int|
                0 <= x < old(g).size() && !layer_parameters(self.layer_list()).contains(
                    (Value { index: x as usize }),
                ) ==> #[trigger] final(g).gradient_of(x) == old(g).gradient_of(x),
    {
        let params = self.parameters();
        proof {
            lemma_layer_parameters_in(self.layer_list(), g);
        }
        let mut i: usize = 0;
        while i < params.len()
            invariant
                params@ == layer_parameters(self.layer_list()),
                all_in(params@, old(g)),
                i <= params@.len(),
                g.wf(),
                g.same_shape(old(g)),
                g.same_data(old(g)),
                forall|j: int| 0 <= j < i ==> g.gradient_of(#[trigger] params@[j].index as int) == old(g).zero(),
                forall|x: int|
                    0 <= x < old(g).size() && (forall|j: int| 0 <= j < i ==> (#[trigger] params@[j]).index != x)
                        ==> #[trigger] g.gradient_of(x) == old(g).gradient_of(x),
            decreases params@.len() - i,
        {
            let ghost before = *g;
            params[i].zero_grad(g);
            proof {
                assert forall|j: int| 0 <= j < i + 1 implies g.gradient_of(#[trigger] params@[j].index as int)
                    == old(g).zero() by {
                    if j < i && params@[j].index != params@[i as int].index {
                        assert(before.gradient_of(params@[j].index as int) == old(g).zero());
                    }
                }
                assert forall|x: int|
                    0 <= x < old(g).size() && (forall|j: int| 0 <= j < i + 1 ==> (#[trigger] params@[j]).index != x)
                        implies #[trigger] g.gradient_of(x) == old(g).gradient_of(x) by {
                    assert(params@[i as int].index != x);
                    assert(before.gradient_of(x) == old(g).gradient_of(x));
                }
            }
            i = i + 1;
        }
        proof {
            assert forall|x: int|
                0 <= x < old(g).size() && !params@.contains((Value { index: x as usize }))
                    implies #[trigger] g.gradient_of(x) == old(g).gradient_of(x) by {
                assert forall|j: int| 0 <= j < params@.len() implies (#[trigger] params@[j]).index != x by {
                    if params@[j].index == x {
                        assert(params@[j] == Value { index: x as usize });
                    }
                }
            }
        }
    }
}

} // verus!
