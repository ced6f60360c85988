use micrograd_rs::graph::{Graph, Op};
use micrograd_rs::network::{Layer, MultiLayerPerceptron, NetworkParameters, Neuron};

#[test]
fn test_neuron_creation() {
    let mut g = Graph::new();
    let neuron = Neuron::new(&mut g, 3);
    assert_eq!(neuron.weights.len(), 3);
    assert_eq!(neuron.bias, 0);
    assert_eq!(neuron.weights, vec![1, 2, 3]);
    assert!(g.node(neuron.bias).is_leaf());
}

#[test]
fn test_neuron_forward() {
    let mut g = Graph::new();
    let neuron = Neuron::new(&mut g, 2);
    let x0 = g.leaf();
    let x1 = g.leaf();
    let output = neuron.forward(&mut g, &vec![x0, x1]);
    // tanh(x1 * w1 + (x0 * w0 + bias))
    assert_eq!(output, 9);
    assert_eq!(g.node(5), Op::Mul(x0, 1));
    assert_eq!(g.node(6), Op::Add(5, 0));
    assert_eq!(g.node(7), Op::Mul(x1, 2));
    assert_eq!(g.node(8), Op::Add(7, 6));
    assert_eq!(g.node(output), Op::Tanh(8));
}

#[test]
fn neuron_forward_uses_shorter_length() {
    let mut g = Graph::new();
    let neuron = Neuron::new(&mut g, 3);
    let x0 = g.leaf();
    let output = neuron.forward(&mut g, &vec![x0]);
    assert_eq!(g.len(), 8);
    assert_eq!(g.node(output), Op::Tanh(6));
    let empty = neuron.forward(&mut g, &vec![]);
    assert_eq!(g.node(empty), Op::Tanh(neuron.bias));
}

#[test]
fn test_neuron_parameters() {
    let mut g = Graph::new();
    let neuron = Neuron::new(&mut g, 2);
    let params = neuron.parameters();
    assert_eq!(params.len(), 3); // 2 weights + 1 bias
    assert_eq!(params, vec![0, 1, 2]);
}

#[test]
fn layer_creation_and_forward() {
    let mut g = Graph::new();
    let layer = Layer::new(&mut g, 2, 3);
    assert_eq!(layer.neurons.len(), 3);
    assert_eq!(g.len(), 9);
    assert_eq!(layer.parameters(), (0..9).collect::<Vec<usize>>());
    let x0 = g.leaf();
    let x1 = g.leaf();
    let out = layer.forward(&mut g, &vec![x0, x1]);
    assert_eq!(out, vec![15, 20, 25]);
    for o in out {
        assert!(matches!(g.node(o), Op::Tanh(_)));
    }
}

#[test]
fn test_mlp_creation() {
    let mut g = Graph::new();
    let mlp = MultiLayerPerceptron::new(&mut g, 2, vec![3, 1]);
    assert_eq!(mlp.layers.len(), 2);
    assert_eq!(mlp.layers[0].neurons.len(), 3);
    assert_eq!(mlp.layers[1].neurons.len(), 1);
    assert_eq!(mlp.layers[0].neurons[0].weights.len(), 2);
    assert_eq!(mlp.layers[1].neurons[0].weights.len(), 3);
}

#[test]
fn test_mlp_forward() {
    let mut g = Graph::new();
    let mlp = MultiLayerPerceptron::new(&mut g, 2, vec![3, 1]);
    let x0 = g.leaf();
    let x1 = g.leaf();
    let output = mlp.forward(&mut g, &vec![x0, x1]);
    assert_eq!(output.len(), 1);
    assert!(matches!(g.node(output[0]), Op::Tanh(_)));
    // 3 hidden neurons of 5 nodes, one output neuron of 7 nodes
    assert_eq!(g.len(), 13 + 2 + 3 * 5 + 7);
}

#[test]
fn test_mlp_parameters() {
    let mut g = Graph::new();
    let mlp = MultiLayerPerceptron::new(&mut g, 2, vec![3, 1]);
    let params = mlp.parameters();
    assert_eq!(params.len(), 13); // (2*3 weights + 3 biases) + (3*1 weights + 1 bias) = 9 + 4 = 13
    assert_eq!(params, (0..13).collect::<Vec<usize>>());
}

#[test]
fn mlp_without_layers_passes_input_through() {
    let mut g = Graph::new();
    let mlp = MultiLayerPerceptron::new(&mut g, 2, vec![]);
    let x0 = g.leaf();
    assert_eq!(mlp.forward(&mut g, &vec![x0]), vec![x0]);
    assert!(mlp.parameters().is_empty());
}

#[test]
fn parameters_survive_truncation() {
    let mut g = Graph::new();
    let mlp = MultiLayerPerceptron::new(&mut g, 3, vec![4, 4, 1]);
    let kept = g.len();
    assert_eq!(kept, 4 * 4 + 4 * 5 + 5);
    let x: Vec<usize> = (0..3).map(|_| g.leaf()).collect();
    let first = mlp.forward(&mut g, &x);
    g.truncate(kept);
    let x: Vec<usize> = (0..3).map(|_| g.leaf()).collect();
    let second = mlp.forward(&mut g, &x);
    assert_eq!(first, second);
}
