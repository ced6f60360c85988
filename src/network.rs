use crate::graph::{Graph, Op};
use vstd::prelude::*;

verus! {

/// `n` new leaves.
pub open spec fn leaves(n: int) -> Seq<Op> {
    Seq::new(n as nat, |i: int| Op::Leaf)
}

/// The indices `start, start + 1, ..., start + n - 1`.
pub open spec fn span(start: int, n: int) -> Seq<usize> {
    Seq::new(n as nat, |i: int| (start + i) as usize)
}

/// Leaves appended in two runs are leaves appended in one.
proof fn lemma_leaves_concat(a: int, b: int)
    requires
        0 <= a,
        0 <= b,
    ensures
        leaves(a) + leaves(b) =~= leaves(a + b),
{
}

/// Two adjacent runs of indices make one run.
proof fn lemma_span_concat(start: int, a: int, b: int)
    requires
        0 <= a,
        0 <= b,
    ensures
        span(start, a) + span(start + a, b) =~= span(start, a + b),
{
}

/// Something that owns trainable parameters: leaves of the graph whose values
/// gradient descent updates.
pub trait NetworkParameters {
    /// The parameters' indices, in a fixed order.
    spec fn parameter_view(&self) -> Seq<usize>;

    /// The parameters' indices, in the order of `parameter_view`.
    fn parameters(&self) -> (r: Vec<usize>)
        ensures
            r@ == self.parameter_view(),
    ;
}

/// One neuron: a weight for each input and a bias, all leaves of the graph.
pub struct Neuron {
    pub weights: Vec<usize>,
    pub bias: usize,
}

impl Neuron {
    /// Every parameter is an index below `len`.
    pub open spec fn within(&self, len: nat) -> bool {
        &&& self.bias < len
        &&& forall|i: int| 0 <= i < self.weights@.len() ==> self.weights@[i] < len
    }

    /// Number of input/weight products that `forward` on `x` sums.
    pub open spec fn terms(&self, x: Seq<usize>) -> nat {
        if x.len() < self.weights@.len() {
            x.len()
        } else {
            self.weights@.len()
        }
    }

    /// The running sum after `i` terms, for nodes appended from `start`:
    /// the bias, then the `i`-th addition node.
    pub open spec fn partial_sum(&self, start: int, i: int) -> usize {
        if i == 0 {
            self.bias
        } else {
            (start + 2 * i - 1) as usize
        }
    }

    /// Node `j` of those that `forward` on `x` appends from index `start`:
    /// for each term a product `x[i] * w[i]` and a sum of that product and
    /// the running sum, and last the tanh of the whole sum.
    pub open spec fn forward_node(&self, x: Seq<usize>, start: int, j: int) -> Op {
        let t = self.terms(x) as int;
        if j == 2 * t {
            Op::Tanh(self.partial_sum(start, t))
        } else if j % 2 == 0 {
            Op::Mul(x[j / 2], self.weights@[j / 2])
        } else {
            Op::Add((start + j - 1) as usize, self.partial_sum(start, j / 2))
        }
    }

    /// The nodes that `forward` on `x` appends to a graph of `start` nodes.
    pub open spec fn forward_nodes(&self, x: Seq<usize>, start: int) -> Seq<Op> {
        Seq::new(2 * self.terms(x) + 1, |j: int| self.forward_node(x, start, j))
    }

    /// A neuron with `len` weights: `len + 1` new leaves, the bias first.
    pub fn new(graph: &mut Graph, len: usize) -> (r: Neuron)
        requires
            old(graph).wf(),
        ensures
            final(graph).wf(),
            final(graph)@ == old(graph)@ + leaves(len + 1),
            r.bias == old(graph)@.len(),
            r.weights@ == span(old(graph)@.len() + 1 as int, len as int),
            r.parameter_view() == span(old(graph)@.len() as int, len + 1),
    {
        let ghost start = graph@.len() as int;
        let bias = graph.leaf();
        let mut weights: Vec<usize> = Vec::new();
        let mut i: usize = 0;
        while i < len
            invariant
                graph.wf(),
                i <= len,
                bias == start,
                start == old(graph)@.len(),
                graph@ == old(graph)@ + leaves(i + 1),
                weights@ == span(start + 1, i as int),
            decreases len - i,
        {
            let w = graph.leaf();
            weights.push(w);
            i += 1;
            assert(graph@ =~= old(graph)@ + leaves(i + 1));
            assert(weights@ =~= span(start + 1, i as int));
        }
        let r = Neuron { weights, bias };
        assert(r.parameter_view() =~= span(start as int, len + 1));
        r
    }

    /// Builds `tanh(x[0] * w[0] + ... + x[t-1] * w[t-1] + bias)` from new
    /// nodes, where `t` is the smaller of the input and weight counts, and
    /// returns the index of the tanh node. Each product is added to the
    /// running sum as soon as it is built, the bias being the first
    /// running sum.
    pub fn forward(&self, graph: &mut Graph, x: &Vec<usize>) -> (r: usize)
        requires
            old(graph).wf(),
            self.within(old(graph)@.len()),
            forall|i: int| 0 <= i < x@.len() ==> x@[i] < old(graph)@.len(),
        ensures
            final(graph).wf(),
            final(graph)@ == old(graph)@ + self.forward_nodes(x@, old(graph)@.len() as int),
            r == old(graph)@.len() + 2 * self.terms(x@),
    {
        let ghost start = graph@.len() as int;
        let t = if x.len() < self.weights.len() {
            x.len()
        } else {
            self.weights.len()
        };
        let mut sum = self.bias;
        let mut i: usize = 0;
        while i < t
            invariant
                graph.wf(),
                t == self.terms(x@),
                t <= x@.len(),
                t <= self.weights@.len(),
                i <= t,
                start == old(graph)@.len(),
                self.within(old(graph)@.len()),
                forall|k: int| 0 <= k < x@.len() ==> x@[k] < old(graph)@.len(),
                sum == self.partial_sum(start, i as int),
                graph@ == old(graph)@ + self.forward_nodes(x@, start).take(2 * i),
            decreases t - i,
        {
            let p = graph.mul(x[i], self.weights[i]);
            sum = graph.add(p, sum);
            proof {
                let want = self.forward_nodes(x@, start);
                assert(want[2 * i] == Op::Mul(x@[i as int], self.weights@[i as int]));
                assert(want[2 * i + 1] == Op::Add(p, self.partial_sum(start, i as int)));
                assert(graph@ =~= old(graph)@ + want.take(2 * (i + 1)));
            }
            i += 1;
        }
        let r = graph.tanh(sum);
        assert(graph@ =~= old(graph)@ + self.forward_nodes(x@, start));
        r
    }
}

impl NetworkParameters for Neuron {
    /// The bias, then the weights in order.
    open spec fn parameter_view(&self) -> Seq<usize> {
        seq![self.bias] + self.weights@
    }

    fn parameters(&self) -> (r: Vec<usize>) {
        let mut r: Vec<usize> = Vec::new();
        r.push(self.bias);
        let mut i: usize = 0;
        while i < self.weights.len()
            invariant
                i <= self.weights@.len(),
                r@ == seq![self.bias] + self.weights@.take(i as int),
            decreases self.weights@.len() - i,
        {
            r.push(self.weights[i]);
            i += 1;
            assert(r@ =~= seq![self.bias] + self.weights@.take(i as int));
        }
        assert(self.weights@.take(i as int) =~= self.weights@);
        r
    }
}

/// The parameters of `ns`, neuron after neuron.
pub open spec fn neuron_params(ns: Seq<Neuron>) -> Seq<usize>
    decreases ns.len(),
{
    if ns.len() == 0 {
        Seq::empty()
    } else {
        neuron_params(ns.drop_last()) + ns.last().parameter_view()
    }
}

/// Graph and outputs after each neuron of `ns` in turn builds its forward
/// computation on `x`, starting from graph `g`.
pub open spec fn layer_forward(g: Seq<Op>, ns: Seq<Neuron>, x: Seq<usize>) -> (Seq<Op>, Seq<usize>)
    decreases ns.len(),
{
    if ns.len() == 0 {
        (g, Seq::empty())
    } else {
        let (g1, outs) = layer_forward(g, ns.drop_last(), x);
        let n = ns.last();
        (g1 + n.forward_nodes(x, g1.len() as int), outs.push((g1.len() + 2 * n.terms(x)) as usize))
    }
}

/// A layer: neurons that each read the whole input.
pub struct Layer {
    pub neurons: Vec<Neuron>,
}

impl Layer {
    /// Every parameter is an index below `len`.
    pub open spec fn within(&self, len: nat) -> bool {
        forall|j: int| 0 <= j < self.neurons@.len() ==> (#[trigger] self.neurons@[j]).within(len)
    }

    /// `len_out` neurons of `len_in` weights each, created one after the
    /// other: `len_out * (len_in + 1)` new leaves.
    pub fn new(graph: &mut Graph, len_in: usize, len_out: usize) -> (r: Layer)
        requires
            old(graph).wf(),
        ensures
            final(graph).wf(),
            final(graph)@ == old(graph)@ + leaves(len_out * (len_in + 1)),
            r.neurons@.len() == len_out,
            forall|j: int| 0 <= j < len_out ==> (#[trigger] r.neurons@[j]).weights@.len() == len_in,
            r.parameter_view() == span(old(graph)@.len() as int, len_out * (len_in + 1)),
    {
        let ghost start = graph@.len() as int;
        let mut neurons: Vec<Neuron> = Vec::new();
        let mut j: usize = 0;
        while j < len_out
            invariant
                graph.wf(),
                j <= len_out,
                start == old(graph)@.len(),
                graph@ == old(graph)@ + leaves(j * (len_in + 1)),
                neurons@.len() == j,
                forall|k: int| 0 <= k < j ==> (#[trigger] neurons@[k]).weights@.len() == len_in,
                neuron_params(neurons@) == span(start, j * (len_in + 1)),
            decreases len_out - j,
        {
            let ghost before = neurons@;
            let ghost used = j * (len_in + 1);
            let n = Neuron::new(graph, len_in);
            neurons.push(n);
            proof {
                assert(used + (len_in + 1) == (j + 1) * (len_in + 1) && 0 <= used)
                    by (nonlinear_arith)
                    requires
                        used == j * (len_in + 1),
                        0 <= j,
                        0 <= len_in,
                ;
                lemma_leaves_concat(used, len_in + 1);
                assert(graph@ =~= old(graph)@ + leaves((j + 1) * (len_in + 1)));
                assert(neurons@.drop_last() =~= before);
                lemma_span_concat(start, used, len_in + 1);
            }
            j += 1;
        }
        Layer { neurons }
    }

    /// Each neuron in turn builds its forward computation on `x`; returns
    /// their outputs in neuron order.
    pub fn forward(&self, graph: &mut Graph, x: &Vec<usize>) -> (r: Vec<usize>)
        requires
            old(graph).wf(),
            self.within(old(graph)@.len()),
            forall|i: int| 0 <= i < x@.len() ==> x@[i] < old(graph)@.len(),
        ensures
            final(graph).wf(),
            (final(graph)@, r@) == layer_forward(old(graph)@, self.neurons@, x@),
            old(graph)@.len() <= final(graph)@.len(),
            forall|i: int| 0 <= i < r@.len() ==> r@[i] < final(graph)@.len(),
    {
        let mut outs: Vec<usize> = Vec::new();
        let mut j: usize = 0;
        while j < self.neurons.len()
            invariant
                graph.wf(),
                j <= self.neurons@.len(),
                self.within(old(graph)@.len()),
                forall|i: int| 0 <= i < x@.len() ==> x@[i] < old(graph)@.len(),
                (graph@, outs@) == layer_forward(old(graph)@, self.neurons@.take(j as int), x@),
                old(graph)@.len() <= graph@.len(),
                forall|i: int| 0 <= i < outs@.len() ==> outs@[i] < graph@.len(),
            decreases self.neurons@.len() - j,
        {
            let n = &self.neurons[j];
            assert(n.within(old(graph)@.len()));
            let o = n.forward(graph, x);
            outs.push(o);
            proof {
                let ns = self.neurons@.take(j + 1);
                assert(ns.drop_last() =~= self.neurons@.take(j as int));
                assert(ns.last() == *n);
            }
            j += 1;
        }
        assert(self.neurons@.take(j as int) =~= self.neurons@);
        outs
    }
}

impl NetworkParameters for Layer {
    /// The parameters of each neuron in turn.
    open spec fn parameter_view(&self) -> Seq<usize> {
        neuron_params(self.neurons@)
    }

    fn parameters(&self) -> (r: Vec<usize>) {
        let mut r: Vec<usize> = Vec::new();
        let mut j: usize = 0;
        while j < self.neurons.len()
            invariant
                j <= self.neurons@.len(),
                r@ == neuron_params(self.neurons@.take(j as int)),
            decreases self.neurons@.len() - j,
        {
            let mut p = self.neurons[j].parameters();
            r.append(&mut p);
            proof {
                let ns = self.neurons@.take(j + 1);
                assert(ns.drop_last() =~= self.neurons@.take(j as int));
            }
            j += 1;
        }
        assert(self.neurons@.take(j as int) =~= self.neurons@);
        r
    }
}

/// The parameters of `ls`, layer after layer.
pub open spec fn layer_params(ls: Seq<Layer>) -> Seq<usize>
    decreases ls.len(),
{
    if ls.len() == 0 {
        Seq::empty()
    } else {
        layer_params(ls.drop_last()) + ls.last().parameter_view()
    }
}

/// Graph and outputs after the layers of `ls` in turn build their forward
/// computations, each on the outputs of the one before, the first on `x`.
pub open spec fn perceptron_forward(g: Seq<Op>, ls: Seq<Layer>, x: Seq<usize>) -> (Seq<Op>, Seq<usize>)
    decreases ls.len(),
{
    if ls.len() == 0 {
        (g, x)
    } else {
        let (g1, y) = perceptron_forward(g, ls.drop_last(), x);
        layer_forward(g1, ls.last().neurons@, y)
    }
}

/// Input size of layer `l` of a perceptron with `len_in` inputs and layer
/// sizes `outs`.
pub open spec fn layer_input(len_in: nat, outs: Seq<usize>, l: int) -> nat {
    if l <= 0 {
        len_in
    } else {
        outs[l - 1] as nat
    }
}

/// Number of parameters of the first `n` layers: each neuron of a layer has
/// one weight per input of the layer and a bias.
pub open spec fn parameter_count(len_in: nat, outs: Seq<usize>, n: int) -> nat
    decreases n,
{
    if n <= 0 {
        0
    } else {
        parameter_count(len_in, outs, n - 1) + (outs[n - 1] as nat) * (layer_input(len_in, outs, n - 1)
            + 1)
    }
}

/// A multi-layer perceptron: layers applied in sequence.
pub struct MultiLayerPerceptron {
    pub layers: Vec<Layer>,
}

impl MultiLayerPerceptron {
    /// Every parameter is an index below `len`.
    pub open spec fn within(&self, len: nat) -> bool {
        forall|l: int| 0 <= l < self.layers@.len() ==> (#[trigger] self.layers@[l]).within(len)
    }

    /// A perceptron with `len_in` inputs and one layer of each size in
    /// `len_outs`, in order; its parameters are new leaves, created layer by
    /// layer and neuron by neuron, in the order `parameters` lists them.
    pub fn new(graph: &mut Graph, len_in: usize, len_outs: Vec<usize>) -> (r: MultiLayerPerceptron)
        requires
            old(graph).wf(),
        ensures
            final(graph).wf(),
            final(graph)@ == old(graph)@ + leaves(
                parameter_count(len_in as nat, len_outs@, len_outs@.len() as int) as int,
            ),
            r.layers@.len() == len_outs@.len(),
            forall|l: int|
                0 <= l < len_outs@.len() ==> (#[trigger] r.layers@[l]).neurons@.len() == len_outs@[l],
            forall|l: int, j: int|
                0 <= l < len_outs@.len() && 0 <= j < len_outs@[l] ==> (
                #[trigger] r.layers@[l].neurons@[j]).weights@.len() == layer_input(
                    len_in as nat,
                    len_outs@,
                    l,
                ),
            r.parameter_view() == span(
                old(graph)@.len() as int,
                parameter_count(len_in as nat, len_outs@, len_outs@.len() as int) as int,
            ),
    {
        let ghost start = graph@.len() as int;
        let ghost outs = len_outs@;
        let mut layers: Vec<Layer> = Vec::new();
        let mut l: usize = 0;
        while l < len_outs.len()
            invariant
                graph.wf(),
                outs == len_outs@,
                l <= outs.len(),
                start == old(graph)@.len(),
                graph@ == old(graph)@ + leaves(parameter_count(len_in as nat, outs, l as int) as int),
                layers@.len() == l,
                forall|k: int| 0 <= k < l ==> (#[trigger] layers@[k]).neurons@.len() == outs[k],
                forall|k: int, j: int|
                    0 <= k < l && 0 <= j < outs[k] ==> (#[trigger] layers@[k].neurons@[j]).weights@.len()
                        == layer_input(len_in as nat, outs, k),
                layer_params(layers@) == span(
                    start,
                    parameter_count(len_in as nat, outs, l as int) as int,
                ),
            decreases outs.len() - l,
        {
            let size_in = if l == 0 {
                len_in
            } else {
                len_outs[l - 1]
            };
            let ghost before = layers@;
            let ghost used = parameter_count(len_in as nat, outs, l as int) as int;
            let layer = Layer::new(graph, size_in, len_outs[l]);
            layers.push(layer);
            proof {
                let added = len_outs[l as int] * (size_in + 1);
                assert(0 <= added) by (nonlinear_arith)
                    requires
                        added == len_outs[l as int] * (size_in + 1),
                        0 <= len_outs[l as int],
                        0 <= size_in,
                ;
                assert(parameter_count(len_in as nat, outs, l + 1) == used + added);
                lemma_leaves_concat(used, added);
                assert(graph@ =~= old(graph)@ + leaves(used + added));
                assert(layers@.drop_last() =~= before);
                lemma_span_concat(start, used, added);
                assert forall|k: int, j: int|
                    0 <= k < l + 1 && 0 <= j < outs[k] implies (#[trigger] layers@[k].neurons@[j]).weights@.len()
                        == layer_input(len_in as nat, outs, k) by {
                    if k < l {
                        assert(layers@[k] == before[k]);
                    }
                }
            }
            l += 1;
        }
        MultiLayerPerceptron { layers }
    }

    /// Threads `x` through the layers: each layer builds its forward
    /// computation on the previous layer's outputs; returns the last
    /// layer's outputs (`x` itself when there is no layer).
    pub fn forward(&self, graph: &mut Graph, x: &Vec<usize>) -> (r: Vec<usize>)
        requires
            old(graph).wf(),
            self.within(old(graph)@.len()),
            forall|i: int| 0 <= i < x@.len() ==> x@[i] < old(graph)@.len(),
        ensures
            final(graph).wf(),
            (final(graph)@, r@) == perceptron_forward(old(graph)@, self.layers@, x@),
            old(graph)@.len() <= final(graph)@.len(),
    {
        let mut out: Vec<usize> = x.clone();
        let mut l: usize = 0;
        while l < self.layers.len()
            invariant
                graph.wf(),
                l <= self.layers@.len(),
                self.within(old(graph)@.len()),
                (graph@, out@) == perceptron_forward(old(graph)@, self.layers@.take(l as int), x@),
                old(graph)@.len() <= graph@.len(),
                forall|i: int| 0 <= i < out@.len() ==> out@[i] < graph@.len(),
            decreases self.layers@.len() - l,
        {
            let layer = &self.layers[l];
            assert(layer.within(old(graph)@.len()));
            assert(layer.within(graph@.len())) by {
                assert forall|j: int| 0 <= j < layer.neurons@.len() implies (
                #[trigger] layer.neurons@[j]).within(graph@.len()) by {
                    assert(layer.neurons@[j].within(old(graph)@.len()));
                }
            }
            out = layer.forward(graph, &out);
            proof {
                let ls = self.layers@.take(l + 1);
                assert(ls.drop_last() =~= self.layers@.take(l as int));
                assert(ls.last() == *layer);
            }
            l += 1;
        }
        assert(self.layers@.take(l as int) =~= self.layers@);
        out
    }
}

impl NetworkParameters for MultiLayerPerceptron {
    /// The parameters of each layer in turn.
    open spec fn parameter_view(&self) -> Seq<usize> {
        layer_params(self.layers@)
    }

    fn parameters(&self) -> (r: Vec<usize>) {
        let mut r: Vec<usize> = Vec::new();
        let mut l: usize = 0;
        while l < self.layers.len()
            invariant
                l <= self.layers@.len(),
                r@ == layer_params(self.layers@.take(l as int)),
            decreases self.layers@.len() - l,
        {
            let mut p = self.layers[l].parameters();
            r.append(&mut p);
            proof {
                let ls = self.layers@.take(l + 1);
                assert(ls.drop_last() =~= self.layers@.take(l as int));
            }
            l += 1;
        }
        assert(self.layers@.take(l as int) =~= self.layers@);
        r
    }
}

} // verus!
