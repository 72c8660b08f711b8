use vstd::prelude::*;

use crate::scalar::Scalar;
use crate::topo::{acyclic_lists, is_topological_order, lemma_reaches_below, lemma_reaches_operand, reaches};

verus! {

/// The operation that produced a node of the graph.
#[derive(Debug, Hash, Clone, Copy, PartialEq, Eq, Structural)]
pub enum Operation {
    Add,
    Multiply,
    Tanh,
    Exponent,
    Pow,
    Relu,
}

/// Number of operands recorded by a node that `op` produced (`None`: a leaf).
pub open spec fn arity(op: Option<Operation>) -> nat {
    match op {
        None => 0,
        Some(Operation::Tanh) => 1,
        Some(Operation::Exponent) => 1,
        Some(Operation::Relu) => 1,
        Some(Operation::Add) => 2,
        Some(Operation::Multiply) => 2,
        Some(Operation::Pow) => 2,
    }
}

/// How a contribution to an operand's gradient is computed from the gradient
/// `g` of the node that hands it on (the source).
#[derive(Debug, Clone, Copy, PartialEq, Eq, Structural)]
pub enum Rule {
    /// `g`: the source is a sum.
    PassThrough,
    /// `data(other) * g`: the source is a product, `other` the other factor.
    OtherFactor(usize),
    /// `(1 - data(source)^2) * g`: the source is a tanh.
    TanhDerivative,
    /// `data(source) * g`: the source is an exponential.
    ExpDerivative,
    /// `e * data(target)^(e - 1) * g` with `e = data(exponent)`: the source is
    /// a power, the target its base.
    PowerDerivative(usize),
    /// `g` if `data(source) > 0`, else zero: the source is a relu.
    ReluGate,
}

/// One addition into the gradient of node `target`, handed on by `source`.
#[derive(Debug, Clone, Copy, PartialEq, Eq, Structural)]
pub struct Contribution {
    pub target: usize,
    pub source: usize,
    pub rule: Rule,
}

/// The contributions that the local backward rule of node `u`, produced by
/// `op` from `operands`, makes, in order. The exponent of a power gets none.
pub open spec fn local_contributions(op: Option<Operation>, operands: Seq<usize>, u: usize) -> Seq<
    Contribution,
> {
    match op {
        None => seq![],
        Some(Operation::Add) => seq![
            Contribution { target: operands[0], source: u, rule: Rule::PassThrough },
            Contribution { target: operands[1], source: u, rule: Rule::PassThrough },
        ],
        Some(Operation::Multiply) => seq![
            Contribution { target: operands[0], source: u, rule: Rule::OtherFactor(operands[1]) },
            Contribution { target: operands[1], source: u, rule: Rule::OtherFactor(operands[0]) },
        ],
        Some(Operation::Tanh) => seq![
            Contribution { target: operands[0], source: u, rule: Rule::TanhDerivative },
        ],
        Some(Operation::Exponent) => seq![
            Contribution { target: operands[0], source: u, rule: Rule::ExpDerivative },
        ],
        Some(Operation::Pow) => seq![
            Contribution { target: operands[0], source: u, rule: Rule::PowerDerivative(operands[1]) },
        ],
        Some(Operation::Relu) => seq![
            Contribution { target: operands[0], source: u, rule: Rule::ReluGate },
        ],
    }
}

/// The amount that contribution `c` adds to its target's gradient, when the
/// gradient of its source is `gs` and the nodes hold `data`: the local
/// derivative of the source with respect to the target, times `gs`.
pub open spec fn amount<S: Scalar>(data: Seq<S>, c: Contribution, gs: S) -> S {
    let d = data[c.source as int];
    match c.rule {
        Rule::PassThrough => gs,
        Rule::OtherFactor(o) => S::spec_times(data[o as int], gs),
        Rule::TanhDerivative => S::spec_times(S::spec_minus(S::spec_one(), S::spec_times(d, d)), gs),
        Rule::ExpDerivative => S::spec_times(d, gs),
        Rule::PowerDerivative(e) => {
            let de = data[e as int];
            let db = data[c.target as int];
            S::spec_times(S::spec_times(de, S::spec_powf(db, S::spec_minus(de, S::spec_one()))), gs)
        },
        Rule::ReluGate => if S::spec_is_positive(d) {
            gs
        } else {
            S::spec_zero()
        },
    }
}

/// The gradients `grads` after contribution `c` is added to its target.
pub open spec fn step<S: Scalar>(data: Seq<S>, grads: Seq<S>, c: Contribution) -> Seq<S> {
    grads.update(
        c.target as int,
        S::spec_plus(grads[c.target as int], amount(data, c, grads[c.source as int])),
    )
}

/// The gradients `grads` after the contributions `cs` are added, in order.
pub open spec fn apply<S: Scalar>(data: Seq<S>, grads: Seq<S>, cs: Seq<Contribution>) -> Seq<S>
    decreases cs.len(),
{
    if cs.len() == 0 {
        grads
    } else {
        step(data, apply(data, grads, cs.drop_last()), cs.last())
    }
}

/// Adding the contributions `a + b` is adding those of `a`, then those of `b`.
pub proof fn lemma_apply_concat<S: Scalar>(data: Seq<S>, grads: Seq<S>, a: Seq<Contribution>, b: Seq<Contribution>)
    ensures
        apply(data, grads, a + b) == apply(data, apply(data, grads, a), b),
    decreases b.len(),
{
    if b.len() == 0 {
        assert(a + b =~= a);
    } else {
        assert((a + b).drop_last() =~= a + b.drop_last());
        lemma_apply_concat(data, grads, a, b.drop_last());
    }
}

/// The value of a one-operand node that `op` produces from `x`.
pub open spec fn unary_value<S: Scalar>(op: Operation, x: S) -> S {
    match op {
        Operation::Tanh => S::spec_tanh(x),
        Operation::Exponent => S::spec_exp(x),
        _ => S::spec_relu(x),
    }
}

/// A handle on a node: its position in the graph that owns it.
///
/// Handles are the identity of nodes. Two nodes that happen to hold the same
/// numbers are still two nodes.
#[derive(Debug, Hash, Clone, Copy, PartialEq, Eq, Structural)]
pub struct Value {
    pub index: usize,
}

/// An arena of scalar nodes, grown one node at a time.
///
/// Node `i` records its value, its gradient accumulator, the operation that
/// produced it and the handles of its operands. Every operand of node `i` is
/// a node built before it, so the graph is acyclic by construction.
pub struct Tape<S> {
    data: Vec<S>,
    gradients: Vec<S>,
    operations: Vec<Option<Operation>>,
    operands: Vec<Vec<usize>>,
    zero: S,
    one: S,
    minus_one: S,
}

impl<S: Scalar> Tape<S> {
    /// Number of nodes.
    pub closed spec fn size(&self) -> nat {
        self.operations@.len()
    }

    pub closed spec fn data_of(&self, i: int) -> S {
        self.data@[i]
    }

    pub closed spec fn gradient_of(&self, i: int) -> S {
        self.gradients@[i]
    }

    pub closed spec fn operation_of(&self, i: int) -> Option<Operation> {
        self.operations@[i]
    }

    pub closed spec fn operands_of(&self, i: int) -> Seq<usize> {
        self.operands@[i]@
    }

    /// The value every gradient starts from and is reset to.
    pub closed spec fn zero(&self) -> S {
        self.zero
    }

    /// The value a backward pass seeds its root with.
    pub closed spec fn one(&self) -> S {
        self.one
    }

    /// The value of the constant leaves that subtraction and division add.
    pub closed spec fn minus_one(&self) -> S {
        self.minus_one
    }

    /// The gradients of all nodes, by handle.
    pub closed spec fn gradients(&self) -> Seq<S> {
        self.gradients@
    }

    /// The values of all nodes, by handle.
    pub closed spec fn values(&self) -> Seq<S> {
        self.data@
    }

    /// The contributions of node `u`'s local backward rule.
    pub open spec fn local_rule(&self, u: usize) -> Seq<Contribution> {
        local_contributions(self.operation_of(u as int), self.operands_of(u as int), u)
    }

    /// The contributions of the local rules of the nodes of `order`, taken
    /// from the last node to the first.
    pub open spec fn schedule(&self, order: Seq<usize>) -> Seq<Contribution>
        decreases order.len(),
    {
        if order.len() == 0 {
            seq![]
        } else {
            self.local_rule(order.last()) + self.schedule(order.drop_last())
        }
    }

    /// The operand lists of all nodes, by handle.
    pub open spec fn operand_lists(&self) -> Seq<Seq<usize>> {
        Seq::new(self.size(), |i: int| self.operands_of(i))
    }

    pub closed spec fn storage_ok(&self) -> bool {
        &&& self.data@.len() == self.operations@.len()
        &&& self.gradients@.len() == self.operations@.len()
        &&& self.operands@.len() == self.operations@.len()
    }

    /// Node `i` has as many operands as its operation takes, all built before it.
    pub open spec fn node_wf(&self, i: int) -> bool {
        &&& self.operands_of(i).len() == arity(self.operation_of(i))
        &&& forall|k: int| 0 <= k < self.operands_of(i).len() ==> #[trigger] self.operands_of(i)[k] < i
    }

    pub open spec fn wf(&self) -> bool {
        &&& self.storage_ok()
        &&& self.zero() == S::spec_zero()
        &&& self.one() == S::spec_one()
        &&& self.minus_one() == S::spec_minus_one()
        &&& forall|i: int| 0 <= i < self.size() ==> #[trigger] self.node_wf(i)
    }

    /// `self` has the nodes of `other`, with the same operations and operands.
    pub open spec fn same_shape(&self, other: &Self) -> bool {
        &&& self.size() == other.size()
        &&& self.zero() == other.zero()
        &&& self.one() == other.one()
        &&& forall|i: int| 0 <= i < self.size() ==> #[trigger] self.operation_of(i) == other.operation_of(i)
        &&& forall|i: int| 0 <= i < self.size() ==> #[trigger] self.operands_of(i) == other.operands_of(i)
    }

    /// Every node holds the same value in `self` as in `other`.
    pub open spec fn same_data(&self, other: &Self) -> bool {
        forall|i: int| 0 <= i < self.size() ==> #[trigger] self.data_of(i) == other.data_of(i)
    }

    /// `self` is `old` with one more node, and the nodes of `old` untouched.
    pub open spec fn grown_from(&self, old: &Self) -> bool {
        &&& self.size() == old.size() + 1
        &&& self.extends(old)
    }

    /// `self` holds the nodes of `old` untouched, and maybe more.
    pub open spec fn extends(&self, old: &Self) -> bool {
        &&& self.size() >= old.size()
        &&& self.zero() == old.zero()
        &&& self.one() == old.one()
        &&& self.minus_one() == old.minus_one()
        &&& forall|i: int| 0 <= i < old.size() ==> #[trigger] self.operation_of(i) == old.operation_of(i)
        &&& forall|i: int| 0 <= i < old.size() ==> #[trigger] self.operands_of(i) == old.operands_of(i)
        &&& forall|i: int| 0 <= i < old.size() ==> #[trigger] self.data_of(i) == old.data_of(i)
        &&& forall|i: int| 0 <= i < old.size() ==> #[trigger] self.gradient_of(i) == old.gradient_of(i)
    }

    /// Node `v` of `self` has a zero gradient, `op` and `operands`.
    pub open spec fn node_is(&self, v: Value, op: Option<Operation>, operands: Seq<usize>) -> bool {
        &&& v.index < self.size()
        &&& self.gradient_of(v.index as int) == self.zero()
        &&& self.operation_of(v.index as int) == op
        &&& self.operands_of(v.index as int) == operands
    }

    /// An empty graph.
    pub fn new() -> (g: Self)
        ensures
            g.wf(),
            g.size() == 0,
    {
        Tape {
            data: Vec::new(),
            gradients: Vec::new(),
            operations: Vec::new(),
            operands: Vec::new(),
            zero: S::zero(),
            one: S::one(),
            minus_one: S::minus_one(),
        }
    }

    /// Number of nodes.
    pub fn len(&self) -> (n: usize)
        requires
            self.wf(),
        ensures
            n == self.size(),
    {
        self.operations.len()
    }

    /// Whether `v` is a handle of this graph.
    pub fn contains(&self, v: Value) -> (r: bool)
        requires
            self.wf(),
        ensures
            r == (v.index < self.size()),
    {
        v.index < self.operations.len()
    }

    /// The operands of node `i`, in their recorded order.
    pub fn operands(&self, i: usize) -> (r: &Vec<usize>)
        requires
            self.wf(),
            i < self.size(),
        ensures
            r@ == self.operands_of(i as int),
    {
        &self.operands[i]
    }

    /// Appends a node with a zero gradient.
    fn push_node(&mut self, data: S, operation: Option<Operation>, operands: Vec<usize>) -> (v: Value)
        requires
            old(self).wf(),
            operands@.len() == arity(operation),
            forall|k: int| 0 <= k < operands@.len() ==> #[trigger] operands@[k] < old(self).size(),
        ensures
            final(self).wf(),
            final(self).grown_from(old(self)),
            v.index == old(self).size(),
            final(self).data_of(v.index as int) == data,
            final(self).node_is(v, operation, operands@),
    {
        let v = Value { index: self.operations.len() };
        let zero = self.zero;
        self.data.push(data);
        self.gradients.push(zero);
        self.operations.push(operation);
        self.operands.push(operands);
        proof {
            assert forall|i: int| 0 <= i < self.size() implies #[trigger] self.node_wf(i) by {
                if i < old(self).size() {
                    assert(old(self).node_wf(i));
                    assert(self.operands_of(i) == old(self).operands_of(i));
                }
            }
        }
        v
    }

    /// A node with no operands holding `data`.
    pub fn leaf(&mut self, data: S) -> (v: Value)
        requires
            old(self).wf(),
        ensures
            final(self).wf(),
            final(self).grown_from(old(self)),
            v.index == old(self).size(),
            final(self).data_of(v.index as int) == data,
            final(self).node_is(v, None, seq![]),
    {
        let ops: Vec<usize> = Vec::new();
        let v = self.push_node(data, None, ops);
        assert(self.operands_of(v.index as int) =~= seq![]);
        v
    }
}

impl<S: Scalar> Tape<S> {
    /// A node holding the sum of `a` and `b`, with operands `[b, a]`.
    pub fn add(&mut self, a: Value, b: Value) -> (v: Value)
        requires
            old(self).wf(),
            a.index < old(self).size(),
            b.index < old(self).size(),
        ensures
            final(self).wf(),
            final(self).grown_from(old(self)),
            v.index == old(self).size(),
            final(self).node_is(v, Some(Operation::Add), seq![b.index, a.index]),
            final(self).data_of(v.index as int) == S::spec_plus(
                old(self).data_of(a.index as int),
                old(self).data_of(b.index as int),
            ),
    {
        let d = self.data[a.index].plus(&self.data[b.index]);
        let ops: Vec<usize> = vec![b.index, a.index];
        self.push_node(d, Some(Operation::Add), ops)
    }

    /// A node holding the product of `a` and `b`, with operands `[a, b]`.
    pub fn multiply(&mut self, a: Value, b: Value) -> (v: Value)
        requires
            old(self).wf(),
            a.index < old(self).size(),
            b.index < old(self).size(),
        ensures
            final(self).wf(),
            final(self).grown_from(old(self)),
            v.index == old(self).size(),
            final(self).node_is(v, Some(Operation::Multiply), seq![a.index, b.index]),
            final(self).data_of(v.index as int) == S::spec_times(
                old(self).data_of(a.index as int),
                old(self).data_of(b.index as int),
            ),
    {
        let d = self.data[a.index].times(&self.data[b.index]);
        let ops: Vec<usize> = vec![a.index, b.index];
        self.push_node(d, Some(Operation::Multiply), ops)
    }

    /// A node with one operand `a`, holding `f(a)` where `f` is the scalar
    /// function that `op` names.
    fn unary(&mut self, a: Value, op: Operation) -> (v: Value)
        requires
            old(self).wf(),
            a.index < old(self).size(),
            arity(Some(op)) == 1,
        ensures
            final(self).wf(),
            final(self).grown_from(old(self)),
            v.index == old(self).size(),
            final(self).node_is(v, Some(op), seq![a.index]),
            final(self).data_of(v.index as int) == unary_value(op, old(self).data_of(a.index as int)),
    {
        let x = self.data[a.index];
        let d = match op {
            Operation::Tanh => x.tanh(),
            Operation::Exponent => x.exp(),
            _ => x.relu(),
        };
        let ops: Vec<usize> = vec![a.index];
        assert(ops@ =~= seq![a.index]);
        self.push_node(d, Some(op), ops)
    }

    /// A node holding `base` raised to the power `exponent`, with operands
    /// `[base, exponent]`.
    pub fn power(&mut self, base: Value, exponent: Value) -> (v: Value)
        requires
            old(self).wf(),
            base.index < old(self).size(),
            exponent.index < old(self).size(),
        ensures
            final(self).wf(),
            final(self).grown_from(old(self)),
            v.index == old(self).size(),
            final(self).node_is(v, Some(Operation::Pow), seq![base.index, exponent.index]),
            final(self).data_of(v.index as int) == S::spec_powf(
                old(self).data_of(base.index as int),
                old(self).data_of(exponent.index as int),
            ),
    {
        let d = self.data[base.index].powf(&self.data[exponent.index]);
        let ops: Vec<usize> = vec![base.index, exponent.index];
        self.push_node(d, Some(Operation::Pow), ops)
    }

    /// `a - b`, built as `a + b * (-1)`: three new nodes, the constant leaf
    /// `-1`, the product and the sum, which is returned.
    pub fn subtract(&mut self, a: Value, b: Value) -> (v: Value)
        requires
            old(self).wf(),
            a.index < old(self).size(),
            b.index < old(self).size(),
        ensures
            final(self).wf(),
            final(self).extends(old(self)),
            final(self).size() == old(self).size() + 3,
            v.index == old(self).size() + 2,
            final(self).data_of(old(self).size() as int) == old(self).minus_one(),
            final(self).node_is((Value { index: old(self).size() as usize }), None, seq![]),
            final(self).node_is(
                (Value { index: (old(self).size() + 1) as usize }),
                Some(Operation::Multiply),
                seq![b.index, old(self).size() as usize],
            ),
            final(self).node_is(
                v,
                Some(Operation::Add),
                seq![(old(self).size() + 1) as usize, a.index],
            ),
            final(self).data_of(old(self).size() + 1int) == S::spec_times(
                old(self).data_of(b.index as int),
                S::spec_minus_one(),
            ),
            final(self).data_of(v.index as int) == S::spec_plus(
                old(self).data_of(a.index as int),
                S::spec_times(old(self).data_of(b.index as int), S::spec_minus_one()),
            ),
    {
        let m1 = self.minus_one;
        let c = self.leaf(m1);
        let m = self.multiply(b, c);
        self.add(a, m)
    }

    /// `a / b`, built as `a * b ^ (-1)`: three new nodes, the constant leaf
    /// `-1`, the power and the product, which is returned.
    pub fn divide(&mut self, a: Value, b: Value) -> (v: Value)
        requires
            old(self).wf(),
            a.index < old(self).size(),
            b.index < old(self).size(),
        ensures
            final(self).wf(),
            final(self).extends(old(self)),
            final(self).size() == old(self).size() + 3,
            v.index == old(self).size() + 2,
            final(self).data_of(old(self).size() as int) == old(self).minus_one(),
            final(self).node_is((Value { index: old(self).size() as usize }), None, seq![]),
            final(self).node_is(
                (Value { index: (old(self).size() + 1) as usize }),
                Some(Operation::Pow),
                seq![b.index, old(self).size() as usize],
            ),
            final(self).node_is(
                v,
                Some(Operation::Multiply),
                seq![a.index, (old(self).size() + 1) as usize],
            ),
            final(self).data_of(old(self).size() + 1int) == S::spec_powf(
                old(self).data_of(b.index as int),
                S::spec_minus_one(),
            ),
            final(self).data_of(v.index as int) == S::spec_times(
                old(self).data_of(a.index as int),
                S::spec_powf(old(self).data_of(b.index as int), S::spec_minus_one()),
            ),
    {
        let m1 = self.minus_one;
        let c = self.leaf(m1);
        let p = self.power(b, c);
        self.multiply(a, p)
    }
}

impl Value {
    /// A node holding the hyperbolic tangent of `self`, with operands `[self]`.
    pub fn tanh<S: Scalar>(self, g: &mut Tape<S>) -> (v: Value)
        requires
            old(g).wf(),
            self.index < old(g).size(),
        ensures
            final(g).wf(),
            final(g).grown_from(old(g)),
            v.index == old(g).size(),
            final(g).node_is(v, Some(Operation::Tanh), seq![self.index]),
            final(g).data_of(v.index as int) == S::spec_tanh(old(g).data_of(self.index as int)),
    {
        g.unary(self, Operation::Tanh)
    }

    /// A node holding the exponential of `self`, with operands `[self]`.
    pub fn exp<S: Scalar>(self, g: &mut Tape<S>) -> (v: Value)
        requires
            old(g).wf(),
            self.index < old(g).size(),
        ensures
            final(g).wf(),
            final(g).grown_from(old(g)),
            v.index == old(g).size(),
            final(g).node_is(v, Some(Operation::Exponent), seq![self.index]),
            final(g).data_of(v.index as int) == S::spec_exp(old(g).data_of(self.index as int)),
    {
        g.unary(self, Operation::Exponent)
    }

    /// A node holding the larger of `self` and zero, with operands `[self]`.
    pub fn relu<S: Scalar>(self, g: &mut Tape<S>) -> (v: Value)
        requires
            old(g).wf(),
            self.index < old(g).size(),
        ensures
            final(g).wf(),
            final(g).grown_from(old(g)),
            v.index == old(g).size(),
            final(g).node_is(v, Some(Operation::Relu), seq![self.index]),
            final(g).data_of(v.index as int) == S::spec_relu(old(g).data_of(self.index as int)),
    {
        g.unary(self, Operation::Relu)
    }

    /// A node holding `self` raised to the power `exponent`, with operands
    /// `[self, exponent]`.
    pub fn powf<S: Scalar>(self, exponent: Value, g: &mut Tape<S>) -> (v: Value)
        requires
            old(g).wf(),
            self.index < old(g).size(),
            exponent.index < old(g).size(),
        ensures
            final(g).wf(),
            final(g).grown_from(old(g)),
            v.index == old(g).size(),
            final(g).node_is(v, Some(Operation::Pow), seq![self.index, exponent.index]),
            final(g).data_of(v.index as int) == S::spec_powf(
                old(g).data_of(self.index as int),
                old(g).data_of(exponent.index as int),
            ),
    {
        g.power(self, exponent)
    }
}

impl<S: Scalar> Tape<S> {
    /// `gradients()` and `values()` list, by handle, what `gradient_of` and
    /// `data_of` give.
    pub proof fn lemma_views(&self)
        requires
            self.wf(),
        ensures
            self.gradients().len() == self.size(),
            self.values().len() == self.size(),
            forall|i: int| 0 <= i < self.size() ==> #[trigger] self.gradients()[i] == self.gradient_of(i),
            forall|i: int| 0 <= i < self.size() ==> #[trigger] self.values()[i] == self.data_of(i),
    {
    }

    /// Each node has at most two operands, all built before it.
    pub proof fn lemma_acyclic(&self)
        requires
            self.wf(),
        ensures
            acyclic_lists(self.operand_lists()),
    {
        let ops = self.operand_lists();
        assert forall|i: int| 0 <= i < ops.len() implies {
            &&& #[trigger] ops[i].len() <= 2
            &&& forall|k: int| 0 <= k < ops[i].len() ==> #[trigger] ops[i][k] < i
        } by {
            assert(self.node_wf(i));
        }
    }

    /// Adds `amount` into the gradient of node `t`; no other node changes.
    fn accumulate(&mut self, t: usize, amount: S)
        requires
            old(self).wf(),
            t < old(self).size(),
        ensures
            final(self).gradients() == old(self).gradients().update(
                t as int,
                S::spec_plus(old(self).gradient_of(t as int), amount),
            ),
            final(self).wf(),
            final(self).same_shape(old(self)),
            final(self).same_data(old(self)),
            forall|i: int|
                0 <= i < old(self).size() && i != t ==> #[trigger] final(self).gradient_of(i)
                    == old(self).gradient_of(i),
    {
        let sum = self.gradients[t].plus(&amount);
        self.gradients.set(t, sum);
        assert forall|i: int| 0 <= i < self.size() implies #[trigger] self.node_wf(i) by {
            assert(old(self).node_wf(i));
        }
    }

    /// The local backward rule of node `u`: adds into the gradient of each of
    /// its operands the derivative of `u` with respect to that operand, times
    /// the gradient of `u`. The exponent of a power receives nothing.
    fn propagate(&mut self, u: usize)
        requires
            old(self).wf(),
            u < old(self).size(),
        ensures
            final(self).wf(),
            final(self).same_shape(old(self)),
            final(self).same_data(old(self)),
            final(self).gradients() == apply(old(self).values(), old(self).gradients(), old(self).local_rule(u)),
            forall|i: int|
                0 <= i < old(self).size() && !old(self).operands_of(u as int).contains(i as usize)
                    ==> #[trigger] final(self).gradient_of(i) == old(self).gradient_of(i),
    {
        let ghost start = *self;
        proof {
            assert(self.node_wf(u as int));
        }
        let g = self.gradients[u];
        let d = self.data[u];
        let one = self.one;
        let zero = self.zero;
        match self.operations[u] {
            None => {
                assert(self.gradients() =~= apply(start.values(), start.gradients(), start.local_rule(u)));
            },
            Some(Operation::Add) => {
                let a = self.operands[u][0];
                let b = self.operands[u][1];
                assert(start.operands_of(u as int)[0] == a && start.operands_of(u as int)[1] == b);
                self.accumulate(a, g);
                self.accumulate(b, g);
            },
            Some(Operation::Multiply) => {
                let a = self.operands[u][0];
                let b = self.operands[u][1];
                assert(start.operands_of(u as int)[0] == a && start.operands_of(u as int)[1] == b);
                let da = self.data[a];
                let db = self.data[b];
                self.accumulate(a, db.times(&g));
                self.accumulate(b, da.times(&g));
            },
            Some(Operation::Tanh) => {
                let a = self.operands[u][0];
                assert(start.operands_of(u as int)[0] == a);
                let local = one.minus(&d.times(&d));
                self.accumulate(a, local.times(&g));
            },
            Some(Operation::Exponent) => {
                let a = self.operands[u][0];
                assert(start.operands_of(u as int)[0] == a);
                self.accumulate(a, d.times(&g));
            },
            Some(Operation::Pow) => {
                let base = self.operands[u][0];
                let e = self.operands[u][1];
                assert(start.operands_of(u as int)[0] == base && start.operands_of(u as int)[1] == e);
                let db = self.data[base];
                let de = self.data[e];
                let local = de.times(&db.powf(&de.minus(&one)));
                self.accumulate(base, local.times(&g));
            },
            Some(Operation::Relu) => {
                let a = self.operands[u][0];
                assert(start.operands_of(u as int)[0] == a);
                if d.is_positive() {
                    self.accumulate(a, g);
                } else {
                    self.accumulate(a, zero);
                }
            },
        }
        proof {
            reveal_with_fuel(apply, 3);
            let r = start.local_rule(u);
            if r.len() > 0 {
                assert(r.drop_last().len() == 0 || r.drop_last().drop_last().len() == 0);
            }
            assert(self.gradients() =~= apply(start.values(), start.gradients(), r));
        }
    }
}

impl Value {
    /// Reverse-mode differentiation from `self`: seeds the gradient of `self`
    /// with one, then visits the nodes that `self` reaches in the reverse of
    /// [`Tape::topological_order`], so that every node has received the
    /// contributions of all its consumers before it hands its own gradient on
    /// to its operands. Gradients accumulate: reset them between passes that
    /// reuse nodes.
    ///
    /// For a topological order `order` of the nodes reached, the gradients
    /// end as the starting gradients, with the root seeded, to which the
    /// contributions `schedule(order)` (the local rules of those nodes, last
    /// node first, as [`local_contributions`] lists them) are added in turn,
    /// each amount computed by [`amount`].
    pub fn backward<S: Scalar>(self, g: &mut Tape<S>)
        requires
            old(g).wf(),
            self.index < old(g).size(),
        ensures
            final(g).wf(),
            final(g).same_shape(old(g)),
            final(g).same_data(old(g)),
            final(g).gradient_of(self.index as int) == old(g).one(),
            forall|i: int|
                0 <= i < old(g).size() && !reaches(old(g).operand_lists(), self.index as int, i)
                    ==> #[trigger] final(g).gradient_of(i) == old(g).gradient_of(i),
            final(g).values() == old(g).values(),
            exists|order: Seq<usize>|
                #![trigger old(g).schedule(order)]
                is_topological_order(old(g).operand_lists(), self.index as int, order) && final(g).gradients()
                    == apply(
                    old(g).values(),
                    old(g).gradients().update(self.index as int, S::spec_one()),
                    old(g).schedule(order),
                ),
    {
        let ghost ops = g.operand_lists();
        proof {
            g.lemma_acyclic();
        }
        let order = g.topological_order(self);
        let r = self.index;
        let one = g.one;
        g.gradients.set(r, one);
        proof {
            assert forall|i: int| 0 <= i < g.size() implies #[trigger] g.node_wf(i) by {
                assert(old(g).node_wf(i));
            }
        }
        let mut i = order.len();
        let ghost mut partial: Seq<Contribution> = seq![];
        let ghost seeded = old(g).gradients().update(r as int, S::spec_one());
        assert(g.gradients() =~= seeded);
        assert(g.values() =~= old(g).values());
        assert(order@.take(i as int) =~= order@);
        while i > 0
            invariant
                i <= order@.len(),
                g.values() == old(g).values(),
                g.gradients() == apply(old(g).values(), seeded, partial),
                partial + old(g).schedule(order@.take(i as int)) == old(g).schedule(order@),
                g.wf(),
                g.same_shape(old(g)),
                g.same_data(old(g)),
                ops == old(g).operand_lists(),
                acyclic_lists(ops),
                crate::topo::is_topological_order(ops, r as int, order@),
                r < old(g).size(),
                g.gradient_of(r as int) == old(g).one(),
                forall|x: int|
                    0 <= x < old(g).size() && !reaches(ops, r as int, x) ==> #[trigger] g.gradient_of(x)
                        == old(g).gradient_of(x),
            decreases i,
        {
            i = i - 1;
            let u = order[i];
            let ghost before = *g;
            proof {
                assert(order@.contains(u));
                assert(reaches(ops, r as int, u as int));
                assert(ops[u as int] == g.operands_of(u as int));
            }
            g.propagate(u);
            proof {
                assert(before.local_rule(u) == old(g).local_rule(u));
                assert(order@.take(i + 1).drop_last() =~= order@.take(i as int));
                assert(order@.take(i + 1).last() == u);
                assert(partial + before.local_rule(u) + old(g).schedule(order@.take(i as int)) =~= partial
                    + old(g).schedule(order@.take(i + 1)));
                assert forall|i: int| 0 <= i < before.values().len() implies before.values()[i] == old(g).values()[i] by {
                    assert(before.data_of(i) == old(g).data_of(i));
                }
                assert(before.values() =~= old(g).values());
                lemma_apply_concat(old(g).values(), seeded, partial, before.local_rule(u));
                partial = partial + before.local_rule(u);
                assert forall|i: int| 0 <= i < g.values().len() implies g.values()[i] == old(g).values()[i] by {
                    assert(g.data_of(i) == old(g).data_of(i));
                }
                assert(g.values() =~= old(g).values());
                assert forall|x: int|
                    0 <= x < old(g).size() && (x == r || !reaches(ops, r as int, x)) implies #[trigger] g.gradient_of(x)
                        == before.gradient_of(x) by {
                    if before.operands_of(u as int).contains(x as usize) {
                        let k = choose|k: int| 0 <= k < ops[u as int].len() && ops[u as int][k] == x as usize;
                        lemma_reaches_operand(ops, r as int, u as int, k);
                        lemma_reaches_below(ops, r as int, u as int);
                    }
                }
            }
        }
        proof {
            assert(order@.take(0) =~= Seq::<usize>::empty());
            assert(partial =~= old(g).schedule(order@));
        }
    }
}

impl<S: Scalar> Tape<S> {
    /// Node `base + 1 + i` adds `values[i]` to node `base + i`, and holds
    /// the sum of their values.
    pub open spec fn sum_step(&self, base: nat, values: Seq<Value>, i: int) -> bool {
        self.node_is(
            (Value { index: (base + 1 + i) as usize }),
            Some(Operation::Add),
            seq![values[i].index, (base + i) as usize],
        ) && self.data_of(base + 1 + i) == S::spec_plus(self.data_of(base + i), self.data_of(values[i].index as int))
    }

    /// The sum of `values`, built as `((0 + v0) + v1) + ...`: a constant leaf
    /// zero, then one addition node per value. The last node is returned.
    pub fn sum(&mut self, values: &Vec<Value>) -> (v: Value)
        requires
            old(self).wf(),
            forall|i: int| 0 <= i < values@.len() ==> #[trigger] values@[i].index < old(self).size(),
        ensures
            final(self).wf(),
            final(self).extends(old(self)),
            final(self).size() == old(self).size() + 1 + values@.len(),
            v.index == old(self).size() + values@.len(),
            final(self).data_of(old(self).size() as int) == old(self).zero(),
            final(self).node_is((Value { index: old(self).size() as usize }), None, seq![]),
            forall|i: int|
                0 <= i < values@.len() ==> #[trigger] final(self).sum_step(old(self).size(), values@, i),
    {
        let zero = self.zero;
        let mut total = self.leaf(zero);
        let ghost start = self.size() - 1;
        let mut i: usize = 0;
        while i < values.len()
            invariant
                self.wf(),
                self.extends(old(self)),
                start == old(self).size(),
                i <= values@.len(),
                self.size() == old(self).size() + 1 + i,
                total.index == old(self).size() + i,
                forall|j: int| 0 <= j < values@.len() ==> #[trigger] values@[j].index < old(self).size(),
                self.data_of(start as int) == old(self).zero(),
                self.node_is((Value { index: start as usize }), None, seq![]),
                forall|j: int|
                    0 <= j < i ==> #[trigger] self.sum_step(old(self).size(), values@, j),
            decreases values@.len() - i,
        {
            let ghost before = *self;
            total = self.add(total, values[i]);
            proof {
                assert forall|j: int| 0 <= j < i + 1 implies #[trigger] self.sum_step(old(self).size(), values@, j) by {
                    if j < i {
                        assert(before.sum_step(old(self).size(), values@, j));
                    }
                }
            }
            i = i + 1;
        }
        total
    }
}

impl Value {
    /// The value held by this node.
    pub fn data<S: Scalar>(self, g: &Tape<S>) -> (r: S)
        requires
            g.wf(),
            self.index < g.size(),
        ensures
            r == g.data_of(self.index as int),
    {
        g.data[self.index]
    }

    /// Overwrites the value held by this node, and nothing else. Meant for
    /// leaves that hold trainable parameters: the values of nodes computed
    /// from this one are not recomputed.
    pub fn set_data<S: Scalar>(self, g: &mut Tape<S>, value: S)
        requires
            old(g).wf(),
            self.index < old(g).size(),
        ensures
            final(g).wf(),
            final(g).same_shape(old(g)),
            final(g).data_of(self.index as int) == value,
            forall|i: int|
                0 <= i < old(g).size() && i != self.index ==> #[trigger] final(g).data_of(i)
                    == old(g).data_of(i),
            forall|i: int|
                0 <= i < old(g).size() ==> #[trigger] final(g).gradient_of(i) == old(g).gradient_of(i),
    {
        g.data.set(self.index, value);
        assert forall|i: int| 0 <= i < g.size() implies #[trigger] g.node_wf(i) by {
            assert(old(g).node_wf(i));
        }
    }

    /// The gradient accumulated in this node.
    pub fn gradient<S: Scalar>(self, g: &Tape<S>) -> (r: S)
        requires
            g.wf(),
            self.index < g.size(),
        ensures
            r == g.gradient_of(self.index as int),
    {
        g.gradients[self.index]
    }

    /// Resets the gradient of this node to zero; its value, operation and
    /// operands, and every other node, stay as they are.
    pub fn zero_grad<S: Scalar>(self, g: &mut Tape<S>)
        requires
            old(g).wf(),
            self.index < old(g).size(),
        ensures
            final(g).wf(),
            final(g).same_shape(old(g)),
            final(g).same_data(old(g)),
            final(g).gradient_of(self.index as int) == old(g).zero(),
            forall|i: int|
                0 <= i < old(g).size() && i != self.index ==> #[trigger] final(g).gradient_of(i)
                    == old(g).gradient_of(i),
    {
        let zero = g.zero;
        g.gradients.set(self.index, zero);
        assert forall|i: int| 0 <= i < g.size() implies #[trigger] g.node_wf(i) by {
            assert(old(g).node_wf(i));
        }
    }

    /// The operands of this node, in their recorded order.
    pub fn children<S: Scalar>(self, g: &Tape<S>) -> (r: Vec<Value>)
        requires
            g.wf(),
            self.index < g.size(),
        ensures
            r@.len() == g.operands_of(self.index as int).len(),
            forall|k: int| 0 <= k < r@.len() ==> #[trigger] r@[k].index == g.operands_of(self.index as int)[k],
    {
        let ops = &g.operands[self.index];
        let mut r: Vec<Value> = Vec::new();
        let mut k: usize = 0;
        while k < ops.len()
            invariant
                ops@ == g.operands_of(self.index as int),
                k <= ops@.len(),
                r@.len() == k,
                forall|j: int| 0 <= j < k ==> #[trigger] r@[j].index == ops@[j],
            decreases ops@.len() - k,
        {
            r.push(Value { index: ops[k] });
            k = k + 1;
        }
        r
    }

    /// The operation that produced this node (`None` for a leaf).
    pub fn operation<S: Scalar>(self, g: &Tape<S>) -> (r: Option<Operation>)
        requires
            g.wf(),
            self.index < g.size(),
        ensures
            r == g.operation_of(self.index as int),
    {
        g.operations[self.index]
    }
}

} // verus!
