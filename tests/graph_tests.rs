use micrograd_rs::graph::{Graph, Op};
use micrograd_rs::order::Edge;

fn edge(node: usize, slot: usize, operand: usize) -> Edge {
    Edge { node, slot, operand }
}

#[test]
fn builders_append_in_order() {
    let mut g = Graph::new();
    let a = g.leaf();
    let b = g.leaf();
    assert_eq!((a, b), (0, 1));
    assert_eq!(g.add(a, b), 2);
    assert_eq!(g.mul(a, b), 3);
    assert_eq!(g.pow(a), 4);
    assert_eq!(g.exp(b), 5);
    assert_eq!(g.tanh(a), 6);
    assert_eq!(g.relu(b), 7);
    assert_eq!(g.len(), 8);
    assert_eq!(g.node(2), Op::Add(0, 1));
    assert_eq!(g.node(3), Op::Mul(0, 1));
    assert_eq!(g.node(4), Op::Pow(0));
    assert_eq!(g.node(5), Op::Exp(1));
    assert_eq!(g.node(6), Op::Tanh(0));
    assert_eq!(g.node(7), Op::Relu(1));
    assert!(g.node(0).is_leaf());
    assert!(!g.node(2).is_leaf());
}

#[test]
fn operands_by_position() {
    let op = Op::Mul(4, 7);
    assert_eq!(op.arity(), 2);
    assert_eq!(op.operand(0), 4);
    assert_eq!(op.operand(1), 7);
    assert_eq!(Op::Tanh(3).arity(), 1);
    assert_eq!(Op::Tanh(3).operand(0), 3);
    assert_eq!(Op::Leaf.arity(), 0);
}

#[test]
fn sub_adds_negated_product() {
    let mut g = Graph::new();
    let a = g.leaf();
    let b = g.leaf();
    let r = g.sub(a, b);
    assert_eq!(r, 4);
    assert_eq!(g.node(2), Op::Leaf);
    assert_eq!(g.node(3), Op::Mul(b, 2));
    assert_eq!(g.node(4), Op::Add(a, 3));
}

#[test]
fn div_multiplies_by_power() {
    let mut g = Graph::new();
    let a = g.leaf();
    let b = g.leaf();
    let r = g.div(a, b);
    assert_eq!(r, 3);
    assert_eq!(g.node(2), Op::Pow(b));
    assert_eq!(g.node(3), Op::Mul(a, 2));
}

#[test]
fn truncate_keeps_prefix() {
    let mut g = Graph::new();
    let a = g.leaf();
    let b = g.leaf();
    g.mul(a, b);
    g.truncate(2);
    assert_eq!(g.len(), 2);
    g.truncate(5);
    assert_eq!(g.len(), 2);
    assert_eq!(g.add(a, b), 2);
}

#[test]
fn topological_order_of_fan_out() {
    // d = c + c with c = a * b: c is reached along two edges.
    let mut g = Graph::new();
    let a = g.leaf();
    let b = g.leaf();
    let c = g.mul(a, b);
    let d = g.add(c, c);
    assert_eq!(g.topological_sort(d), vec![a, b, c, d]);
}

#[test]
fn topological_order_of_diamond() {
    let mut g = Graph::new();
    let a = g.leaf();
    let unused = g.leaf();
    let b = g.tanh(a);
    let c = g.exp(a);
    let d = g.add(b, c);
    let order = g.topological_sort(d);
    assert_eq!(order, vec![a, b, c, d]);
    assert!(!order.contains(&unused));
    assert_eq!(g.topological_sort(c), vec![a, c]);
    assert_eq!(g.topological_sort(a), vec![a]);
}

#[test]
fn schedule_of_product() {
    let mut g = Graph::new();
    let a = g.leaf();
    let b = g.leaf();
    let c = g.mul(a, b);
    assert_eq!(g.propagation_steps(c), vec![edge(c, 0, a), edge(c, 1, b)]);
    assert_eq!(g.propagation_steps(a), vec![]);
}

#[test]
fn schedule_of_fan_out() {
    let mut g = Graph::new();
    let a = g.leaf();
    let b = g.leaf();
    let c = g.mul(a, b);
    let d = g.add(c, c);
    assert_eq!(
        g.propagation_steps(d),
        vec![edge(d, 0, c), edge(d, 1, c), edge(c, 0, a), edge(c, 1, b)]
    );
}

#[test]
fn schedule_of_diamond() {
    let mut g = Graph::new();
    let a = g.leaf();
    let b = g.tanh(a);
    let c = g.exp(a);
    let d = g.mul(b, c);
    assert_eq!(
        g.propagation_steps(d),
        vec![edge(d, 0, b), edge(d, 1, c), edge(c, 0, a), edge(b, 0, a)]
    );
}
