//! Numeric checks of the graph structure and the back-propagation schedule:
//! values and gradients are kept here, in arrays indexed like the graph.

use micrograd_rs::graph::{Graph, Op};

struct Tape {
    graph: Graph,
    data: Vec<f64>,
    exponent: Vec<f64>,
}

impl Tape {
    fn new() -> Tape {
        Tape { graph: Graph::new(), data: Vec::new(), exponent: Vec::new() }
    }

    fn set(&mut self, value: f64, exponent: f64) {
        self.data.push(value);
        self.exponent.push(exponent);
    }

    /// Computes the value of every node not yet valued.
    fn settle(&mut self) {
        while self.data.len() < self.graph.len() {
            let i = self.data.len();
            let k = if i < self.exponent.len() { self.exponent[i] } else { 0.0 };
            let v = match self.graph.node(i) {
                Op::Leaf => panic!("leaf without a value"),
                Op::Add(a, b) => self.data[a] + self.data[b],
                Op::Mul(a, b) => self.data[a] * self.data[b],
                Op::Pow(a) => self.data[a].powf(k),
                Op::Exp(a) => self.data[a].exp(),
                Op::Tanh(a) => self.data[a].tanh(),
                Op::Relu(a) => self.data[a].max(0.0),
            };
            self.data.push(v);
            if self.exponent.len() <= i {
                self.exponent.push(0.0);
            }
        }
    }

    fn leaf(&mut self, v: f64) -> usize {
        let i = self.graph.leaf();
        self.set(v, 0.0);
        i
    }

    fn value(&self, i: usize) -> f64 {
        self.data[i]
    }

    fn sub(&mut self, a: usize, b: usize) -> usize {
        let r = self.graph.sub(a, b);
        self.set(-1.0, 0.0);
        self.settle();
        r
    }

    fn div(&mut self, a: usize, b: usize) -> usize {
        let r = self.graph.div(a, b);
        self.exponent.push(-1.0);
        self.settle();
        r
    }

    fn pow(&mut self, a: usize, k: f64) -> usize {
        let r = self.graph.pow(a);
        self.exponent.push(k);
        self.settle();
        r
    }

    fn grads(&self, root: usize) -> Vec<f64> {
        let mut grad = vec![0.0; self.graph.len()];
        grad[root] = 1.0;
        for e in self.graph.propagation_steps(root) {
            let local = match self.graph.node(e.node) {
                Op::Leaf => 0.0,
                Op::Add(_, _) => 1.0,
                Op::Mul(a, b) => {
                    if e.slot == 0 {
                        self.data[b]
                    } else {
                        self.data[a]
                    }
                }
                Op::Pow(a) => {
                    let k = self.exponent[e.node];
                    k * self.data[a].powf(k - 1.0)
                }
                Op::Exp(_) => self.data[e.node],
                Op::Tanh(_) => 1.0 - self.data[e.node] * self.data[e.node],
                Op::Relu(a) => {
                    if self.data[a] > 0.0 {
                        1.0
                    } else {
                        0.0
                    }
                }
            };
            grad[e.operand] += local * grad[e.node];
        }
        grad
    }
}

#[test]
fn test_mul() {
    let mut t = Tape::new();
    let a = t.leaf(1.0);
    let b = t.leaf(2.0);
    let x = t.graph.mul(a, b);
    t.settle();
    assert_eq!(t.value(x), 2.0);
}

#[test]
fn test_add() {
    let mut t = Tape::new();
    let a = t.leaf(1.0);
    let b = t.leaf(2.0);
    let x = t.graph.add(a, b);
    t.settle();
    assert_eq!(t.value(x), 3.0);
}

#[test]
fn test_sub() {
    let mut t = Tape::new();
    let a = t.leaf(5.0);
    let b = t.leaf(2.0);
    let x = t.sub(a, b);
    assert_eq!(t.value(x), 3.0);
}

#[test]
fn test_div() {
    let mut t = Tape::new();
    let a = t.leaf(6.0);
    let b = t.leaf(2.0);
    let x = t.div(a, b);
    assert_eq!(t.value(x), 3.0);
}

#[test]
fn test_complex_expression() {
    let mut t = Tape::new();
    let a = t.leaf(2.0);
    let b = t.leaf(3.0);
    let c = t.leaf(4.0);
    let d = t.leaf(5.0);
    // (2 + 3) * (4 - 5) / 2
    let s = t.graph.add(a, b);
    t.settle();
    let e = t.sub(c, d);
    let p = t.graph.mul(s, e);
    t.settle();
    let two = t.leaf(2.0);
    let x = t.div(p, two);
    assert_eq!(t.value(x), -2.5);
}

#[test]
fn test_pow() {
    let mut t = Tape::new();
    let a = t.leaf(2.0);
    let x = t.pow(a, 3.0);
    assert_eq!(t.value(x), 8.0);
    assert_eq!(t.grads(x)[a], 12.0);
}

#[test]
fn test_backward() {
    let mut t = Tape::new();
    let a = t.leaf(2.0);
    let b = t.leaf(3.0);
    let c = t.graph.mul(a, b);
    t.settle();
    assert_eq!(t.value(c), 6.0);
    let g = t.grads(c);
    assert_eq!(g[a], 3.0);
    assert_eq!(g[b], 2.0);
}

#[test]
fn fan_out_gradients_add_up() {
    let mut t = Tape::new();
    let a = t.leaf(2.0);
    let b = t.leaf(3.0);
    let c = t.graph.mul(a, b);
    let d = t.graph.add(c, c);
    t.settle();
    let g = t.grads(d);
    assert_eq!(g[c], 2.0);
    assert_eq!(g[a], 6.0);
    assert_eq!(g[b], 4.0);
}

#[test]
fn squared_node_gets_both_contributions() {
    let mut t = Tape::new();
    let a = t.leaf(-3.0);
    let c = t.graph.mul(a, a);
    t.settle();
    assert_eq!(t.value(c), 9.0);
    assert_eq!(t.grads(c)[a], -6.0);
}

#[test]
fn tanh_at_zero() {
    let mut t = Tape::new();
    let a = t.leaf(0.0);
    let x = t.graph.tanh(a);
    t.settle();
    assert_eq!(t.value(x), 0.0);
    assert_eq!(t.grads(x)[a], 1.0);
}

#[test]
fn tanh_gradient_matches_finite_difference() {
    let x0 = 0.7;
    let h = 1e-5;
    let mut t = Tape::new();
    let a = t.leaf(x0);
    let x = t.graph.tanh(a);
    t.settle();
    let estimate = ((x0 + h).tanh() - (x0 - h).tanh()) / (2.0 * h);
    assert!((t.grads(x)[a] - estimate).abs() < 1e-6);
}

#[test]
fn exp_and_relu_gradients() {
    let mut t = Tape::new();
    let a = t.leaf(1.0);
    let n = t.leaf(-2.0);
    let e = t.graph.exp(a);
    let r = t.graph.relu(n);
    let s = t.graph.add(e, r);
    t.settle();
    let g = t.grads(s);
    assert!((g[a] - 1.0_f64.exp()).abs() < 1e-12);
    assert_eq!(g[n], 0.0);
    assert_eq!(t.value(r), 0.0);
}

#[test]
fn pow_gradient_is_k_times_power() {
    let mut t = Tape::new();
    let a = t.leaf(1.5);
    let x = t.pow(a, 4.0);
    assert_eq!(t.value(x), 1.5_f64.powf(4.0));
    assert_eq!(t.grads(x)[a], 4.0 * 1.5_f64.powf(3.0));
}
