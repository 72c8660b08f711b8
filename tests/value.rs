use ugradrs::graph::{Tape, Operation, Value};
use ugradrs::scalar::Scalar;

#[derive(Clone, Copy, Debug, PartialEq)]
struct F64(f64);

impl Scalar for F64 {
    fn spec_zero() -> Self {
        F64(0.0)
    }
    fn spec_one() -> Self {
        F64(1.0)
    }
    fn spec_minus_one() -> Self {
        F64(-1.0)
    }
    fn spec_plus(a: Self, b: Self) -> Self {
        F64(a.0 + b.0)
    }
    fn spec_minus(a: Self, b: Self) -> Self {
        F64(a.0 - b.0)
    }
    fn spec_times(a: Self, b: Self) -> Self {
        F64(a.0 * b.0)
    }
    fn spec_tanh(a: Self) -> Self {
        F64(a.0.tanh())
    }
    fn spec_exp(a: Self) -> Self {
        F64(a.0.exp())
    }
    fn spec_powf(a: Self, exponent: Self) -> Self {
        F64(a.0.powf(exponent.0))
    }
    fn spec_relu(a: Self) -> Self {
        F64(a.0.max(0.0))
    }
    fn spec_is_positive(a: Self) -> bool {
        a.0 > 0.0
    }
    fn zero() -> Self {
        F64(0.0)
    }
    fn one() -> Self {
        F64(1.0)
    }
    fn minus_one() -> Self {
        F64(-1.0)
    }
    fn plus(&self, other: &Self) -> Self {
        F64(self.0 + other.0)
    }
    fn minus(&self, other: &Self) -> Self {
        F64(self.0 - other.0)
    }
    fn times(&self, other: &Self) -> Self {
        F64(self.0 * other.0)
    }
    fn tanh(&self) -> Self {
        F64(self.0.tanh())
    }
    fn exp(&self) -> Self {
        F64(self.0.exp())
    }
    fn powf(&self, exponent: &Self) -> Self {
        F64(self.0.powf(exponent.0))
    }
    fn relu(&self) -> Self {
        F64(self.0.max(0.0))
    }
    fn is_positive(&self) -> bool {
        self.0 > 0.0
    }
}

fn close(a: f64, b: f64, epsilon: f64) -> bool {
    (a - b).abs() <= epsilon
}

fn grad(g: &Tape<F64>, v: Value) -> f64 {
    v.gradient(g).0
}

fn data(g: &Tape<F64>, v: Value) -> f64 {
    v.data(g).0
}

#[test]
fn test_backprop_add_and_mul() {
    let mut g = Tape::new();
    let a = g.leaf(F64(2.0));
    let b = g.leaf(F64(-3.0));
    let c = g.leaf(F64(10.0));
    let e = g.multiply(a, b);
    let d = g.add(e, c);
    let f = g.leaf(F64(-2.0));
    let l = g.multiply(d, f);
    l.backward(&mut g);

    assert_eq!(grad(&g, l), 1.0);
    assert_eq!(grad(&g, d), -2.0);
    assert_eq!(grad(&g, f), 4.0);
    assert_eq!(grad(&g, c), -2.0);
    assert_eq!(grad(&g, e), -2.0);
    assert_eq!(grad(&g, a), 6.0);
    assert_eq!(grad(&g, b), -4.0);
}

#[test]
fn test_backprop_neuron() {
    let mut g = Tape::new();
    let x1 = g.leaf(F64(2.0));
    let x2 = g.leaf(F64(0.0));
    let w1 = g.leaf(F64(-3.0));
    let w2 = g.leaf(F64(1.0));
    let b = g.leaf(F64(6.881_373_587_019_543));

    let x1w1 = g.multiply(x1, w1);
    let x2w2 = g.multiply(x2, w2);
    let x1w1x2w2 = g.add(x1w1, x2w2);
    let n = g.add(x1w1x2w2, b);
    let o = n.tanh(&mut g);
    o.backward(&mut g);

    assert!(close(grad(&g, o), 1.0, 0.001));
    assert!(close(grad(&g, w1), 1.0, 0.001));
    assert_eq!(grad(&g, w2), 0.0);
    assert!(close(grad(&g, x1), -1.5, 0.001));
    assert!(close(grad(&g, x2), 0.5, 0.001));
    assert!(close(grad(&g, n), 0.5, 0.001));
    assert!(close(grad(&g, b), 0.5, 0.001));
    assert!(close(grad(&g, x2w2), 0.5, 0.001));
    assert!(close(grad(&g, x1w1), 0.5, 0.001));
}

#[test]
fn test_backprop_neuron_from_components() {
    let mut g = Tape::new();
    let x1 = g.leaf(F64(2.0));
    let x2 = g.leaf(F64(0.0));
    let w1 = g.leaf(F64(-3.0));
    let w2 = g.leaf(F64(1.0));
    let b = g.leaf(F64(6.881_373_587_019_543));

    let x1w1 = g.multiply(x1, w1);
    let x2w2 = g.multiply(x2, w2);
    let x1w1x2w2 = g.add(x1w1, x2w2);
    let n = g.add(x1w1x2w2, b);
    let two = g.leaf(F64(2.0));
    let two_n = g.multiply(two, n);
    let e = two_n.exp(&mut g);
    let one_a = g.leaf(F64(1.0));
    let top = g.subtract(e, one_a);
    let one_b = g.leaf(F64(1.0));
    let bottom = g.add(e, one_b);
    let o = g.divide(top, bottom);
    o.backward(&mut g);

    assert!(close(grad(&g, o), 1.0, 0.001));
    assert!(close(grad(&g, n), 0.5, 0.001));
    assert!(close(grad(&g, w1), 1.0, 0.001));
    assert_eq!(grad(&g, w2), 0.0);
    assert!(close(grad(&g, x1), -1.5, 0.001));
    assert!(close(grad(&g, x2), 0.5, 0.001));
    assert!(close(grad(&g, b), 0.5, 0.001));
    assert!(close(grad(&g, x2w2), 0.5, 0.001));
    assert!(close(grad(&g, x1w1), 0.5, 0.001));
}

#[test]
fn add_passes_upstream_gradient_to_both_operands() {
    for &(x, y) in &[(2.0, -3.0), (0.0, 0.0), (-1.25, 7.5)] {
        let mut g = Tape::new();
        let a = g.leaf(F64(x));
        let b = g.leaf(F64(y));
        let s = g.add(a, b);
        let k = g.leaf(F64(4.0));
        let out = g.multiply(s, k);
        out.backward(&mut g);
        let upstream = grad(&g, s);
        assert_eq!(upstream, 4.0);
        assert_eq!(grad(&g, a), upstream);
        assert_eq!(grad(&g, b), upstream);
        assert_eq!(data(&g, s), x + y);
    }
}

#[test]
fn multiply_swaps_operand_values_into_gradients() {
    for &(x, y) in &[(2.0, -3.0), (0.5, 4.0), (-1.0, 0.0)] {
        let mut g = Tape::new();
        let a = g.leaf(F64(x));
        let b = g.leaf(F64(y));
        let p = g.multiply(a, b);
        let k = g.leaf(F64(3.0));
        let out = g.multiply(p, k);
        out.backward(&mut g);
        let upstream = grad(&g, p);
        assert_eq!(upstream, 3.0);
        assert_eq!(grad(&g, a), y * upstream);
        assert_eq!(grad(&g, b), x * upstream);
    }
}

#[test]
fn shared_operand_receives_both_contributions() {
    // a feeds two products, whose sum is the root: a diamond.
    let mut g = Tape::new();
    let a = g.leaf(F64(3.0));
    let b = g.leaf(F64(5.0));
    let c = g.leaf(F64(7.0));
    let p = g.multiply(a, b);
    let q = g.multiply(a, c);
    let r = g.add(p, q);
    r.backward(&mut g);
    assert_eq!(grad(&g, a), 5.0 + 7.0);
    assert_eq!(grad(&g, b), 3.0);
    assert_eq!(grad(&g, c), 3.0);
}

#[test]
fn node_added_to_itself_gets_gradient_twice() {
    let mut g = Tape::new();
    let a = g.leaf(F64(3.0));
    let s = g.add(a, a);
    s.backward(&mut g);
    assert_eq!(data(&g, s), 6.0);
    assert_eq!(grad(&g, a), 2.0);
}

#[test]
fn gradients_accumulate_across_passes_until_reset() {
    let mut g = Tape::new();
    let a = g.leaf(F64(3.0));
    let b = g.leaf(F64(4.0));
    let p = g.multiply(a, b);
    p.backward(&mut g);
    p.backward(&mut g);
    assert_eq!(grad(&g, a), 8.0);
    a.zero_grad(&mut g);
    assert_eq!(grad(&g, a), 0.0);
    p.backward(&mut g);
    assert_eq!(grad(&g, a), 4.0);
    assert_eq!(grad(&g, p), 1.0);
}

#[test]
fn zero_grad_keeps_data_operands_and_operation() {
    let mut g = Tape::new();
    let a = g.leaf(F64(3.0));
    let b = g.leaf(F64(4.0));
    let p = g.multiply(a, b);
    p.backward(&mut g);
    p.zero_grad(&mut g);
    assert_eq!(grad(&g, p), 0.0);
    assert_eq!(data(&g, p), 12.0);
    assert_eq!(p.operation(&g), Some(Operation::Multiply));
    assert_eq!(p.children(&g), vec![a, b]);
    assert_eq!(grad(&g, a), 4.0);
}

#[test]
fn topological_order_lists_each_reached_node_once() {
    let mut g = Tape::new();
    let unrelated = g.leaf(F64(1.0));
    let a = g.leaf(F64(2.0));
    let b = a.tanh(&mut g);
    let c = a.exp(&mut g);
    let d = g.multiply(b, c);
    let e = g.add(d, a);
    let order = g.topological_order(e);
    assert_eq!(order.len(), 5);
    assert!(!order.contains(&unrelated.index));
    for v in [a, b, c, d, e] {
        assert_eq!(order.iter().filter(|&&i| i == v.index).count(), 1);
    }
    let pos = |v: Value| order.iter().position(|&i| i == v.index).unwrap();
    assert!(pos(a) < pos(b) && pos(a) < pos(c) && pos(a) < pos(e));
    assert!(pos(b) < pos(d) && pos(c) < pos(d) && pos(d) < pos(e));
    // depth-first post-order, operands in recorded order: add records [a, d]
    assert_eq!(order, vec![a.index, b.index, c.index, d.index, e.index]);
}

#[test]
fn unreached_nodes_keep_their_gradient() {
    let mut g = Tape::new();
    let a = g.leaf(F64(2.0));
    let b = g.leaf(F64(3.0));
    let p = g.multiply(a, b);
    let q = g.add(p, b);
    p.backward(&mut g);
    assert_eq!(grad(&g, q), 0.0);
    assert_eq!(grad(&g, a), 3.0);
}

#[test]
fn builders_compute_values_eagerly() {
    let mut g = Tape::new();
    let a = g.leaf(F64(-2.0));
    let b = g.leaf(F64(3.0));
    let r = a.relu(&mut g);
    let r2 = b.relu(&mut g);
    let pw = b.powf(a, &mut g);
    let t = a.tanh(&mut g);
    let x = a.exp(&mut g);
    let s = g.subtract(a, b);
    let q = g.divide(a, b);
    assert_eq!(data(&g, r), 0.0);
    assert_eq!(data(&g, r2), 3.0);
    assert!(close(data(&g, pw), 1.0 / 9.0, 1e-12));
    assert!(close(data(&g, t), (-2.0f64).tanh(), 1e-12));
    assert!(close(data(&g, x), (-2.0f64).exp(), 1e-12));
    assert_eq!(data(&g, s), -5.0);
    assert!(close(data(&g, q), -2.0 / 3.0, 1e-12));
    assert_eq!(pw.operation(&g), Some(Operation::Pow));
    assert_eq!(pw.children(&g), vec![b, a]);
    assert_eq!(a.operation(&g), None);
    assert!(a.children(&g).is_empty());
}

#[test]
fn power_rule_differentiates_the_base_only() {
    let mut g = Tape::new();
    let base = g.leaf(F64(3.0));
    let exponent = g.leaf(F64(2.0));
    let p = base.powf(exponent, &mut g);
    p.backward(&mut g);
    assert_eq!(data(&g, p), 9.0);
    assert_eq!(grad(&g, base), 6.0);
    assert_eq!(grad(&g, exponent), 0.0);
}

#[test]
fn relu_passes_gradient_only_when_positive() {
    let mut g = Tape::new();
    let a = g.leaf(F64(2.0));
    let b = g.leaf(F64(-2.0));
    let ra = a.relu(&mut g);
    let rb = b.relu(&mut g);
    let s = g.add(ra, rb);
    s.backward(&mut g);
    assert_eq!(grad(&g, a), 1.0);
    assert_eq!(grad(&g, b), 0.0);
}

#[test]
fn division_by_zero_propagates_infinity() {
    let mut g = Tape::new();
    let a = g.leaf(F64(1.0));
    let b = g.leaf(F64(0.0));
    let q = g.divide(a, b);
    assert!(data(&g, q).is_infinite());
    q.backward(&mut g);
    assert!(grad(&g, b).is_nan() || grad(&g, b).is_infinite());
}

#[test]
fn negative_base_to_fractional_power_is_nan() {
    let mut g = Tape::new();
    let a = g.leaf(F64(-8.0));
    let e = g.leaf(F64(0.5));
    let p = a.powf(e, &mut g);
    assert!(data(&g, p).is_nan());
}

fn deep_expression(g: &mut Tape<F64>, x: f64, y: f64) -> (Value, Value, Value) {
    // f = tanh(x * y + exp(x)) * (x - y) / (y ^ 2 + 1)
    let a = g.leaf(F64(x));
    let b = g.leaf(F64(y));
    let ab = g.multiply(a, b);
    let ea = a.exp(g);
    let s = g.add(ab, ea);
    let t = s.tanh(g);
    let diff = g.subtract(a, b);
    let num = g.multiply(t, diff);
    let two = g.leaf(F64(2.0));
    let b2 = b.powf(two, g);
    let one = g.leaf(F64(1.0));
    let den = g.add(b2, one);
    let f = g.divide(num, den);
    (a, b, f)
}

#[test]
fn gradients_match_central_differences() {
    let h = 1e-6;
    for &(x, y) in &[(0.3, -0.7), (1.1, 0.4), (-0.5, 2.0)] {
        let mut g = Tape::new();
        let (a, b, f) = deep_expression(&mut g, x, y);
        f.backward(&mut g);
        let value = |x: f64, y: f64| {
            let mut g2 = Tape::new();
            let (_, _, f2) = deep_expression(&mut g2, x, y);
            data(&g2, f2)
        };
        let dx = (value(x + h, y) - value(x - h, y)) / (2.0 * h);
        let dy = (value(x, y + h) - value(x, y - h)) / (2.0 * h);
        assert!(close(grad(&g, a), dx, 1e-4));
        assert!(close(grad(&g, b), dy, 1e-4));
    }
}

#[test]
fn sum_adds_from_zero() {
    let mut g = Tape::new();
    let a = g.leaf(F64(1.5));
    let b = g.leaf(F64(2.0));
    let c = g.leaf(F64(-0.5));
    let s = g.sum(&vec![a, b, c]);
    assert_eq!(data(&g, s), 3.0);
    assert_eq!(g.len(), 3 + 1 + 3);
    s.backward(&mut g);
    assert_eq!(grad(&g, a), 1.0);
    assert_eq!(grad(&g, c), 1.0);
    let empty = g.sum(&vec![]);
    assert_eq!(data(&g, empty), 0.0);
    assert_eq!(empty.operation(&g), None);
}

#[test]
fn set_data_changes_only_that_value() {
    let mut g = Tape::new();
    let a = g.leaf(F64(1.0));
    let b = g.leaf(F64(2.0));
    let p = g.multiply(a, b);
    a.set_data(&mut g, F64(5.0));
    assert_eq!(data(&g, a), 5.0);
    assert_eq!(data(&g, p), 2.0);
    assert!(g.contains(p));
    assert!(!g.contains(Value { index: 3 }));
}

#[test]
fn tanh_built_from_exponentials_matches_tanh_node() {
    let mut g = Tape::new();
    let x = g.leaf(F64(0.8));
    let t = x.tanh(&mut g);
    t.backward(&mut g);
    let direct = grad(&g, x);

    let mut h = Tape::new();
    let y = h.leaf(F64(0.8));
    let two = h.leaf(F64(2.0));
    let two_y = h.multiply(two, y);
    let e = two_y.exp(&mut h);
    let one_a = h.leaf(F64(1.0));
    let top = h.subtract(e, one_a);
    let one_b = h.leaf(F64(1.0));
    let bottom = h.add(e, one_b);
    let o = h.divide(top, bottom);
    o.backward(&mut h);
    assert!(close(data(&h, o), data(&g, t), 1e-9));
    assert!(close(grad(&h, y), direct, 1e-9));
}

#[test]
fn diamond_sums_both_paths_into_common_ancestor() {
    let mut g = Tape::new();
    let a = g.leaf(F64(0.3));
    let b = a.tanh(&mut g);
    let c = a.exp(&mut g);
    let d = g.multiply(b, c);
    d.backward(&mut g);
    let t = 0.3f64.tanh();
    let e = 0.3f64.exp();
    let expected = (1.0 - t * t) * e + t * e;
    assert!(close(grad(&g, a), expected, 1e-12));
    assert!(close(grad(&g, b), e, 1e-12));
    assert!(close(grad(&g, c), t, 1e-12));
}
