use petgraph::graph::NodeIndex;
use ugradrs::diagram::operation_label;
use ugradrs::graph::{Operation, Tape, Value};
use ugradrs::nn::{Layer, Mlp, Neuron, SizedLayer};
use ugradrs::scalar::Scalar;

#[derive(Clone, Copy, Debug, PartialEq)]
struct F64(f64);

impl Scalar for F64 {
    fn spec_zero() -> Self {
        F64(0.0)
    }
    fn spec_one() -> Self {
        F64(1.0)
    }
    fn spec_minus_one() -> Self {
        F64(-1.0)
    }
    fn spec_plus(a: Self, b: Self) -> Self {
        F64(a.0 + b.0)
    }
    fn spec_minus(a: Self, b: Self) -> Self {
        F64(a.0 - b.0)
    }
    fn spec_times(a: Self, b: Self) -> Self {
        F64(a.0 * b.0)
    }
    fn spec_tanh(a: Self) -> Self {
        F64(a.0.tanh())
    }
    fn spec_exp(a: Self) -> Self {
        F64(a.0.exp())
    }
    fn spec_powf(a: Self, exponent: Self) -> Self {
        F64(a.0.powf(exponent.0))
    }
    fn spec_relu(a: Self) -> Self {
        F64(a.0.max(0.0))
    }
    fn spec_is_positive(a: Self) -> bool {
        a.0 > 0.0
    }
    fn zero() -> Self {
        F64(0.0)
    }
    fn one() -> Self {
        F64(1.0)
    }
    fn minus_one() -> Self {
        F64(-1.0)
    }
    fn plus(&self, other: &Self) -> Self {
        F64(self.0 + other.0)
    }
    fn minus(&self, other: &Self) -> Self {
        F64(self.0 - other.0)
    }
    fn times(&self, other: &Self) -> Self {
        F64(self.0 * other.0)
    }
    fn tanh(&self) -> Self {
        F64(self.0.tanh())
    }
    fn exp(&self) -> Self {
        F64(self.0.exp())
    }
    fn powf(&self, exponent: &Self) -> Self {
        F64(self.0.powf(exponent.0))
    }
    fn relu(&self) -> Self {
        F64(self.0.max(0.0))
    }
    fn is_positive(&self) -> bool {
        self.0 > 0.0
    }
}

fn layer(g: &mut Tape<F64>, inputs: usize, outputs: usize, seed: f64) -> SizedLayer {
    let weights: Vec<Vec<F64>> = (0..outputs)
        .map(|o| (0..inputs).map(|i| F64(((o * inputs + i) as f64 * 0.37 + seed).sin())).collect())
        .collect();
    let biases: Vec<F64> = (0..outputs).map(|o| F64((o as f64 * 0.11 - seed).cos() * 0.1)).collect();
    SizedLayer::new(g, inputs, &weights, &biases)
}

fn leaves(g: &mut Tape<F64>, xs: &[f64]) -> Vec<Value> {
    xs.iter().map(|&x| g.leaf(F64(x))).collect()
}

fn mlp(g: &mut Tape<F64>) -> Mlp {
    let l1 = layer(g, 3, 4, 0.1);
    let l2 = layer(g, 4, 4, 0.2);
    let l3 = layer(g, 4, 1, 0.3);
    Mlp::from_layer(l1).add_layer(l2).add_layer(l3)
}

#[test]
fn test_layer_forward() {
    let mut g = Tape::new();
    let l = layer(&mut g, 2, 3, 0.5);
    let x = leaves(&mut g, &[2.0, 3.0]);
    let o = l.forward(&mut g, &x);
    assert_eq!(o.len(), 3);
}

#[test]
fn mlp_forward_gives_one_output_per_last_neuron() {
    let mut g = Tape::new();
    let m = mlp(&mut g);
    let x = leaves(&mut g, &[2.0, 3.0, -1.0]);
    let o = m.forward(&mut g, &x);
    assert_eq!(o.len(), 1);
    let y = o[0].data(&g).0;
    assert!(y > -1.0 && y < 1.0);
}

#[test]
fn mlp_parameters_count_weights_and_biases() {
    let mut g = Tape::new();
    let m = mlp(&mut g);
    assert_eq!(m.parameters().len(), 41);
}

#[test]
fn neuron_computes_tanh_of_weighted_sum_plus_bias() {
    let mut g = Tape::new();
    let n = Neuron::new(&mut g, &vec![F64(0.5), F64(-1.0)], F64(0.25));
    assert_eq!(n.parameters().len(), 3);
    let x = leaves(&mut g, &[2.0, 0.5]);
    let before = g.len();
    let y = n.forward(&mut g, &x);
    assert_eq!(g.len(), before + 2 * 2 + 3);
    assert_eq!(y.operation(&g), Some(Operation::Tanh));
    let expected = (0.5f64 * 2.0 + -1.0 * 0.5 + 0.25).tanh();
    assert!((y.data(&g).0 - expected).abs() < 1e-12);
    y.backward(&mut g);
    let local = 1.0 - expected * expected;
    let p = n.parameters();
    assert!((p[0].gradient(&g).0 - 2.0 * local).abs() < 1e-12);
    assert!((p[1].gradient(&g).0 - 0.5 * local).abs() < 1e-12);
    assert!((p[2].gradient(&g).0 - local).abs() < 1e-12);
}

#[test]
fn mlp_training_reduces_loss() {
    let mut g = Tape::new();
    let m = mlp(&mut g);
    let dataset = [
        [2.0, 3.0, -1.0],
        [3.0, -1.0, 0.5],
        [0.5, 1.0, 1.0],
        [1.0, 1.0, -1.0],
    ];
    let truth = [1.0, -1.0, -1.0, 1.0];
    let mut losses = Vec::new();
    for _ in 0..15 {
        let mut terms = Vec::new();
        for (d, t) in dataset.iter().zip(truth.iter()) {
            let x = leaves(&mut g, d);
            let y = m.forward(&mut g, &x)[0];
            let tv = g.leaf(F64(*t));
            let diff = g.subtract(tv, y);
            let two = g.leaf(F64(2.0));
            terms.push(diff.powf(two, &mut g));
        }
        let loss = g.sum(&terms);
        losses.push(loss.data(&g).0);
        m.zero_grad(&mut g);
        loss.backward(&mut g);
        for p in m.parameters() {
            let v = p.data(&g).0 + p.gradient(&g).0 * -0.1;
            p.set_data(&mut g, F64(v));
        }
    }
    assert!(losses[losses.len() - 1] < losses[0]);
}

#[test]
fn zero_grad_clears_every_parameter() {
    let mut g = Tape::new();
    let m = mlp(&mut g);
    let x = leaves(&mut g, &[1.0, -2.0, 0.5]);
    let y = m.forward(&mut g, &x)[0];
    y.backward(&mut g);
    assert!(m.parameters().iter().any(|p| p.gradient(&g).0 != 0.0));
    m.zero_grad(&mut g);
    assert!(m.parameters().iter().all(|p| p.gradient(&g).0 == 0.0));
    assert_eq!(y.gradient(&g).0, 1.0);
}

#[test]
fn trace_lists_nodes_and_each_edge_once() {
    let mut g = Tape::new();
    let a = g.leaf(F64(2.0));
    let b = g.leaf(F64(3.0));
    let s = g.add(a, a);
    let p = g.multiply(s, b);
    let (nodes, edges) = g.trace_graph(p);
    assert_eq!(nodes, vec![a.index, s.index, b.index, p.index]);
    assert_eq!(edges.len(), 3);
    assert!(edges.contains(&(a.index, s.index)));
    assert!(edges.contains(&(s.index, p.index)));
    assert!(edges.contains(&(b.index, p.index)));
}

#[test]
fn diagram_has_value_nodes_operation_bubbles_and_edges() {
    let mut g = Tape::new();
    let a = g.leaf(F64(2.0));
    let b = g.leaf(F64(3.0));
    let p = g.multiply(a, b);
    let r = p.relu(&mut g);
    let labels: Vec<String> = (0..g.len()).map(|i| format!("node {}", i)).collect();
    let (nodes, edges) = g.trace_graph(r);
    let d = g.create_graph(&nodes, &edges, &labels);
    // a, b, p, r, then bubbles for p and r
    assert_eq!(d.node_count(), 6);
    assert_eq!(d[NodeIndex::new(0)], "node 0");
    assert_eq!(d[NodeIndex::new(2)], "node 2");
    assert_eq!(d[NodeIndex::new(4)], "*");
    assert_eq!(d[NodeIndex::new(5)], "relu");
    // bubble -> node for p and r, then a, b -> bubble of p, p -> bubble of r
    assert_eq!(d.edge_count(), 5);
    assert!(d.find_edge(NodeIndex::new(4), NodeIndex::new(2)).is_some());
    assert!(d.find_edge(NodeIndex::new(5), NodeIndex::new(3)).is_some());
    assert!(d.find_edge(NodeIndex::new(0), NodeIndex::new(4)).is_some());
    assert!(d.find_edge(NodeIndex::new(1), NodeIndex::new(4)).is_some());
    assert!(d.find_edge(NodeIndex::new(2), NodeIndex::new(5)).is_some());
}

#[test]
fn operation_labels_name_each_operation() {
    assert_eq!(operation_label(Operation::Add), "+");
    assert_eq!(operation_label(Operation::Multiply), "*");
    assert_eq!(operation_label(Operation::Tanh), "tanh");
    assert_eq!(operation_label(Operation::Exponent), "exp");
    assert_eq!(operation_label(Operation::Pow), "pow");
    assert_eq!(operation_label(Operation::Relu), "relu");
}

#[test]
fn layer_leaves_are_fresh_and_consecutive() {
    let mut g = Tape::new();
    let first = g.leaf(F64(9.0));
    let l = layer(&mut g, 2, 3, 0.4);
    let p = l.parameters();
    assert_eq!(p.len(), 9);
    for (k, v) in p.iter().enumerate() {
        assert_eq!(v.index, first.index + 1 + k);
    }
    assert_eq!(g.len(), 1 + 9);
}

#[test]
fn layer_trait_forward_matches_layer_forward() {
    let mut g = Tape::new();
    let l = layer(&mut g, 2, 2, 0.7);
    let x = leaves(&mut g, &[0.5, -1.5]);
    let direct = l.forward(&mut g, &x);
    let through = <SizedLayer as Layer<F64>>::forward(&l, &mut g, &x);
    assert_eq!(direct.len(), through.len());
    for (a, b) in direct.iter().zip(through.iter()) {
        assert_eq!(a.data(&g).0, b.data(&g).0);
    }
    assert_eq!(<SizedLayer as Layer<F64>>::parameters(&l).len(), 6);
}
