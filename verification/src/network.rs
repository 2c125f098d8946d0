//! The feed-forward composition on top of the graph engine: a neuron is a
//! weighted sum plus bias squashed through the hyperbolic tangent; a layer
//! applies several neurons to one input vector; a multi-layer perceptron
//! threads a vector through a sequence of layers. These are pure consumers
//! of the operator library and the backward engine. The one error the
//! composition knows is a dimension mismatch, reported as a recoverable
//! result with the graph left untouched.
use vstd::prelude::*;

use crate::engine::Graph;
use crate::engine::InnerValue;
use crate::engine::Operation;
use crate::engine::Value;
use crate::scalar::Real;
use crate::scalar::real_add;
use crate::scalar::real_mul;
use crate::scalar::real_tanh;
use crate::scalar::real_zero;

verus! {

/// Relies on rand::random: one draw from the thread-local generator.
/// Nothing is promised of the value: every contract downstream holds for
/// every outcome.
pub assume_specification<T>[ rand::random::<T> ]() -> (r: T)
    where
        rand::distributions::Standard: rand::distributions::Distribution<T>,
;

/// A pseudo-random weight in the interval [-1, 1): a raw 32-bit draw scaled
/// by 2^-31.
fn random_weight() -> (r: Real) {
    let draw: i32 = rand::random();
    let two = num_bigfloat::BigFloat::from_i64(2);
    let scale = two.pow(&num_bigfloat::BigFloat::from_i64(-31));
    num_bigfloat::BigFloat::from_i64(draw as i64).mul(&scale)
}

/// The weighted sum over the first `k` weight/input pairs, folded left to
/// right from zero, exactly as the neuron accumulates it.
pub open spec fn dot(g: Seq<InnerValue>, ws: Seq<Value>, xs: Seq<Value>, k: int) -> Real
    decreases k,
{
    if k <= 0 {
        real_zero()
    } else {
        real_add(
            dot(g, ws, xs, k - 1),
            real_mul(g[ws[k - 1].id as int].value, g[xs[k - 1].id as int].value),
        )
    }
}

/// `dot` reads only the values of the weight and input nodes, so graphs
/// that agree on those agree on it.
proof fn lemma_dot_agree(
    g1: Seq<InnerValue>,
    g2: Seq<InnerValue>,
    ws: Seq<Value>,
    xs: Seq<Value>,
    k: int,
)
    requires
        k <= ws.len(),
        k <= xs.len(),
        forall|m: int| 0 <= m < ws.len() ==> (#[trigger] ws[m]).id < g1.len(),
        forall|m: int| 0 <= m < xs.len() ==> (#[trigger] xs[m]).id < g1.len(),
        g1.len() <= g2.len(),
        forall|j: int| 0 <= j < g1.len() ==> (#[trigger] g2[j]).value == g1[j].value,
    ensures
        dot(g2, ws, xs, k) == dot(g1, ws, xs, k),
    decreases k,
{
    if k > 0 {
        lemma_dot_agree(g1, g2, ws, xs, k - 1);
    }
}

/// The nodes a neuron's weighted sum appends to `g` for the first `k`
/// inputs: a zero leaf, then, per weight/input pair, a product node and a
/// running-sum node ending in the sum so far.
pub open spec fn neuron_chain(
    g: Seq<InnerValue>,
    ws: Seq<Value>,
    xs: Seq<Value>,
    k: int,
) -> Seq<InnerValue>
    decreases k,
{
    if k <= 0 {
        g.push(
            InnerValue {
                id: g.len() as usize,
                value: real_zero(),
                gradient: real_zero(),
                operation: Operation::Base,
            },
        )
    } else {
        let g1 = neuron_chain(g, ws, xs, k - 1);
        let product = real_mul(g[ws[k - 1].id as int].value, g[xs[k - 1].id as int].value);
        let g2 = g1.push(
            InnerValue {
                id: g1.len() as usize,
                value: product,
                gradient: real_zero(),
                operation: Operation::Multiplication(ws[k - 1], xs[k - 1]),
            },
        );
        g2.push(
            InnerValue {
                id: g2.len() as usize,
                value: real_add(dot(g, ws, xs, k - 1), product),
                gradient: real_zero(),
                operation: Operation::Addition(
                    Value { id: (g1.len() - 1) as usize },
                    Value { id: g1.len() as usize },
                ),
            },
        )
    }
}

/// Everything `Neuron::forward` appends to `g`: the weighted-sum chain, the
/// bias sum, and the squashed output node last.
pub open spec fn neuron_nodes(
    g: Seq<InnerValue>,
    ws: Seq<Value>,
    xs: Seq<Value>,
    bias: Value,
) -> Seq<InnerValue> {
    let gc = neuron_chain(g, ws, xs, ws.len() as int);
    let s = real_add(dot(g, ws, xs, ws.len() as int), g[bias.id as int].value);
    let g2 = gc.push(
        InnerValue {
            id: gc.len() as usize,
            value: s,
            gradient: real_zero(),
            operation: Operation::Addition(Value { id: (gc.len() - 1) as usize }, bias),
        },
    );
    g2.push(
        InnerValue {
            id: g2.len() as usize,
            value: real_tanh(s),
            gradient: real_zero(),
            operation: Operation::Tanh(Value { id: gc.len() as usize }),
        },
    )
}

/// Shape facts about the weighted-sum chain: how long it is, that it only
/// appends, and that its last node carries the running sum.
proof fn lemma_neuron_chain_facts(g: Seq<InnerValue>, ws: Seq<Value>, xs: Seq<Value>, k: int)
    requires
        0 <= k,
    ensures
        ({
            let gc = neuron_chain(g, ws, xs, k);
            &&& gc.len() == g.len() + 1 + 2 * k
            &&& forall|j: int| 0 <= j < g.len() ==> gc[j] == g[j]
            &&& gc.last().value == dot(g, ws, xs, k)
        }),
    decreases k,
{
    if k > 0 {
        lemma_neuron_chain_facts(g, ws, xs, k - 1);
    }
}

/// One neuron: a weight node per input, and a bias node.
pub struct Neuron {
    pub weights: Vec<Value>,
    pub bias: Value,
}

impl Neuron {
    /// Every node the neuron references exists in a graph of `glen` nodes.
    pub open spec fn wf(self, glen: int) -> bool {
        &&& forall|k: int| 0 <= k < self.weights@.len() ==> (#[trigger] self.weights@[k]).id < glen
        &&& self.bias.id < glen
    }

    /// Creates a neuron of `number_of_parameters` weight leaves and one bias
    /// leaf, each holding a pseudo-random value; earlier nodes are untouched
    /// and every new node is a fresh leaf with gradient zero.
    pub fn new(graph: &mut Graph, number_of_parameters: usize) -> (r: Neuron)
        requires
            old(graph).wf(),
        ensures
            final(graph).wf(),
            r.wf(final(graph).nodes@.len() as int),
            r.weights@.len() == number_of_parameters,
            final(graph).nodes@.len() == old(graph).nodes@.len() + number_of_parameters + 1,
            forall|j: int|
                0 <= j < old(graph).nodes@.len() ==> final(graph).nodes@[j] == old(graph).nodes@[j],
            forall|j: int|
                old(graph).nodes@.len() <= j < final(graph).nodes@.len() ==> (#[trigger] final(graph).nodes@[j]).operation == Operation::Base && final(graph).nodes@[j].gradient
                    == real_zero(),
    {
        let ghost g0 = graph.nodes@;
        let mut weights: Vec<Value> = Vec::new();
        let mut i: usize = 0;
        while i < number_of_parameters
            invariant
                graph.wf(),
                i <= number_of_parameters,
                weights@.len() == i,
                graph.nodes@.len() == g0.len() + i,
                forall|j: int| 0 <= j < g0.len() ==> graph.nodes@[j] == g0[j],
                forall|j: int|
                    g0.len() <= j < graph.nodes@.len() ==> (#[trigger] graph.nodes@[j]).operation
                        == Operation::Base && graph.nodes@[j].gradient == real_zero(),
                forall|k: int|
                    0 <= k < weights@.len() ==> (#[trigger] weights@[k]).id < graph.nodes@.len(),
            decreases number_of_parameters - i,
        {
            let w = Value::new(graph, random_weight());
            weights.push(w);
            i = i + 1;
        }
        let bias = Value::new(graph, random_weight());
        Neuron { weights, bias }
    }

    /// Computes tanh(Σ weight·input + bias) as a fresh subgraph: a zero
    /// leaf, a product and a running-sum node per input, the bias sum, and
    /// the squashed output node, which is returned. An input vector of the
    /// wrong width is rejected, with the graph left exactly as it was.
    pub fn forward(&self, graph: &mut Graph, x: &Vec<Value>) -> (r: Result<Value, String>)
        requires
            old(graph).wf(),
            self.wf(old(graph).nodes@.len() as int),
            forall|k: int| 0 <= k < x@.len() ==> (#[trigger] x@[k]).id < old(graph).nodes@.len(),
        ensures
            final(graph).wf(),
            r is Err <==> x@.len() != self.weights@.len(),
            r is Err ==> *final(graph) == *old(graph),
            r is Ok ==> ({
                let out = r->Ok_0;
                &&& final(graph).nodes@ == neuron_nodes(old(graph).nodes@, self.weights@, x@, self.bias)
                &&& forall|j: int|
                    0 <= j < old(graph).nodes@.len() ==> final(graph).nodes@[j] == old(graph).nodes@[j]
                &&& final(graph).nodes@.len() == old(graph).nodes@.len() + 2 * x@.len() + 3
                &&& out.id == final(graph).nodes@.len() - 1
                &&& final(graph).nodes@[out.id as int].operation is Tanh
                &&& final(graph).nodes@[out.id as int].value == real_tanh(
                    real_add(
                        dot(old(graph).nodes@, self.weights@, x@, self.weights@.len() as int),
                        old(graph).nodes@[self.bias.id as int].value,
                    ),
                )
            }),
    {
        if self.weights.len() != x.len() {
            return Err("Vector size does not match neuron dimensions.".to_owned());
        }
        let ghost g0 = graph.nodes@;
        let mut acc = Value::new(graph, num_bigfloat::BigFloat::from_i64(0));
        proof {
            assert(graph.nodes@ =~= neuron_chain(g0, self.weights@, x@, 0));
        }
        let mut k: usize = 0;
        while k < self.weights.len()
            invariant
                graph.wf(),
                k <= self.weights@.len(),
                self.weights@.len() == x@.len(),
                self.wf(g0.len() as int),
                forall|m: int| 0 <= m < x@.len() ==> (#[trigger] x@[m]).id < g0.len(),
                graph.nodes@ == neuron_chain(g0, self.weights@, x@, k as int),
                acc.id == graph.nodes@.len() - 1,
            decreases self.weights@.len() - k,
        {
            let ghost g_iter = graph.nodes@;
            proof {
                lemma_neuron_chain_facts(g0, self.weights@, x@, k as int);
            }
            let w = self.weights[k];
            let p = w.mul(graph, x[k]);
            acc = acc.add(graph, p);
            proof {
                let wi = self.weights@[k as int];
                let xi = x@[k as int];
                assert(g_iter[wi.id as int].value == g0[wi.id as int].value);
                assert(g_iter[xi.id as int].value == g0[xi.id as int].value);
                assert(g_iter.last().value == dot(g0, self.weights@, x@, k as int));
                assert(graph.nodes@ =~= neuron_chain(g0, self.weights@, x@, k as int + 1));
            }
            k = k + 1;
        }
        proof {
            lemma_neuron_chain_facts(g0, self.weights@, x@, self.weights@.len() as int);
            assert(graph.nodes@[acc.id as int].value == dot(
                g0,
                self.weights@,
                x@,
                self.weights@.len() as int,
            ));
        }
        let with_bias = acc.add(graph, self.bias);
        let out = with_bias.tanh(graph);
        proof {
            assert(graph.nodes@ =~= neuron_nodes(g0, self.weights@, x@, self.bias));
            assert(graph.nodes@[out.id as int].value == real_tanh(
                real_add(
                    dot(g0, self.weights@, x@, self.weights@.len() as int),
                    g0[self.bias.id as int].value,
                ),
            ));
        }
        Ok(out)
    }
}

/// A set of neurons applied to one input vector of the layer's declared
/// width.
pub struct Layer {
    pub neurons: Vec<Neuron>,
    pub dimensionality: usize,
}

impl Layer {
    /// Every neuron references existing nodes and takes exactly the layer's
    /// declared number of inputs.
    pub open spec fn wf(self, glen: int) -> bool {
        forall|k: int|
            0 <= k < self.neurons@.len() ==> (#[trigger] self.neurons@[k]).wf(glen)
                && self.neurons@[k].weights@.len() == self.dimensionality
    }

    /// Creates `number_of_neurons` fresh neurons of `dimensionality` inputs
    /// each; earlier nodes are untouched.
    pub fn new(graph: &mut Graph, dimensionality: usize, number_of_neurons: usize) -> (r: Layer)
        requires
            old(graph).wf(),
        ensures
            final(graph).wf(),
            old(graph).nodes@.len() <= final(graph).nodes@.len(),
            r.wf(final(graph).nodes@.len() as int),
            r.neurons@.len() == number_of_neurons,
            r.dimensionality == dimensionality,
            forall|j: int|
                0 <= j < old(graph).nodes@.len() ==> final(graph).nodes@[j] == old(graph).nodes@[j],
    {
        let ghost g0 = graph.nodes@;
        let mut neurons: Vec<Neuron> = Vec::new();
        let mut i: usize = 0;
        while i < number_of_neurons
            invariant
                graph.wf(),
                i <= number_of_neurons,
                neurons@.len() == i,
                g0.len() <= graph.nodes@.len(),
                forall|j: int| 0 <= j < g0.len() ==> graph.nodes@[j] == g0[j],
                forall|k: int|
                    0 <= k < neurons@.len() ==> (#[trigger] neurons@[k]).wf(
                        graph.nodes@.len() as int,
                    ) && neurons@[k].weights@.len() == dimensionality,
            decreases number_of_neurons - i,
        {
            let n = Neuron::new(graph, dimensionality);
            neurons.push(n);
            i = i + 1;
        }
        Layer { neurons, dimensionality }
    }

    /// Applies every neuron to the same input vector, collecting one output
    /// node per neuron. An input vector whose width disagrees with the
    /// layer's declared dimensionality is rejected, with the graph left
    /// exactly as it was.
    pub fn forward(&self, graph: &mut Graph, x: &Vec<Value>) -> (r: Result<Vec<Value>, String>)
        requires
            old(graph).wf(),
            self.wf(old(graph).nodes@.len() as int),
            forall|k: int| 0 <= k < x@.len() ==> (#[trigger] x@[k]).id < old(graph).nodes@.len(),
        ensures
            final(graph).wf(),
            old(graph).nodes@.len() <= final(graph).nodes@.len(),
            r is Err <==> x@.len() != self.dimensionality,
            r is Err ==> *final(graph) == *old(graph),
            r is Ok ==> ({
                let out = r->Ok_0;
                &&& forall|j: int|
                    0 <= j < old(graph).nodes@.len() ==> final(graph).nodes@[j] == old(graph).nodes@[j]
                &&& out@.len() == self.neurons@.len()
                &&& final(graph).nodes@.len() == old(graph).nodes@.len() + self.neurons@.len() * (
                2 * x@.len() + 3)
                &&& forall|k: int|
                    0 <= k < out@.len() ==> (#[trigger] out@[k]).id == old(graph).nodes@.len() + (
                    k + 1) * (2 * x@.len() + 3) - 1
                &&& forall|k: int|
                    0 <= k < out@.len() ==> (#[trigger] out@[k]).id < final(graph).nodes@.len()
                &&& forall|k: int|
                    0 <= k < out@.len() ==> final(graph).nodes@[(#[trigger] out@[k]).id as int].operation
                        is Tanh
                &&& forall|k: int|
                    0 <= k < out@.len() ==> final(graph).nodes@[(#[trigger] out@[k]).id as int].value
                        == real_tanh(
                        real_add(
                            dot(
                                old(graph).nodes@,
                                self.neurons@[k].weights@,
                                x@,
                                self.dimensionality as int,
                            ),
                            old(graph).nodes@[self.neurons@[k].bias.id as int].value,
                        ),
                    )
            }),
    {
        if x.len() != self.dimensionality {
            return Err("Vector side does not match neuron dimensions".to_owned());
        }
        let ghost g0 = graph.nodes@;
        let mut out: Vec<Value> = Vec::new();
        let mut i: usize = 0;
        while i < self.neurons.len()
            invariant
                graph.wf(),
                i <= self.neurons@.len(),
                out@.len() == i,
                x@.len() == self.dimensionality,
                self.wf(g0.len() as int),
                forall|m: int| 0 <= m < x@.len() ==> (#[trigger] x@[m]).id < g0.len(),
                g0.len() <= graph.nodes@.len(),
                graph.nodes@.len() == g0.len() + i * (2 * x@.len() + 3),
                forall|j: int| 0 <= j < g0.len() ==> graph.nodes@[j] == g0[j],
                forall|k: int|
                    0 <= k < out@.len() ==> (#[trigger] out@[k]).id == g0.len() + (k + 1) * (2
                        * x@.len() + 3) - 1,
                forall|k: int|
                    0 <= k < out@.len() ==> (#[trigger] out@[k]).id < graph.nodes@.len(),
                forall|k: int|
                    0 <= k < out@.len() ==> graph.nodes@[(#[trigger] out@[k]).id as int].operation
                        is Tanh,
                forall|k: int|
                    0 <= k < out@.len() ==> graph.nodes@[(#[trigger] out@[k]).id as int].value
                        == real_tanh(
                        real_add(
                            dot(g0, self.neurons@[k].weights@, x@, self.dimensionality as int),
                            g0[self.neurons@[k].bias.id as int].value,
                        ),
                    ),
            decreases self.neurons@.len() - i,
        {
            let ghost g_iter = graph.nodes@;
            let neuron = &self.neurons[i];
            let res = neuron.forward(graph, x);
            match res {
                Ok(v) => {
                    proof {
                        lemma_dot_agree(
                            g0,
                            g_iter,
                            self.neurons@[i as int].weights@,
                            x@,
                            self.dimensionality as int,
                        );
                        assert((i + 1) * (2 * x@.len() + 3) == i * (2 * x@.len() + 3) + (2
                            * x@.len() + 3)) by (nonlinear_arith);
                    }
                    out.push(v);
                },
                Err(e) => {
                    proof {
                        assert(false);
                    }
                    return Err(e);
                },
            }
            i = i + 1;
        }
        Ok(out)
    }
}

/// A layer that is well formed against a graph stays well formed as the
/// graph grows: it only asks that its nodes exist.
proof fn lemma_layer_wf_monotone(l: Layer, glen1: int, glen2: int)
    requires
        l.wf(glen1),
        glen1 <= glen2,
    ensures
        l.wf(glen2),
{
    assert forall|k: int|
        0 <= k < l.neurons@.len() implies (#[trigger] l.neurons@[k]).wf(glen2)
        && l.neurons@[k].weights@.len() == l.dimensionality by {
        assert(l.neurons@[k].wf(glen1));
    }
}

/// A sequence of layers: the first takes the declared number of inputs, and
/// each later layer takes the previous layer's outputs.
pub struct MultiLayerPerceptron {
    pub layers: Vec<Layer>,
    pub number_of_inputs: usize,
}

impl MultiLayerPerceptron {
    /// Every layer is well formed and the widths chain: the first layer's
    /// width is the network's input count, each later layer's width is the
    /// previous layer's neuron count.
    pub open spec fn wf(self, glen: int) -> bool {
        &&& forall|k: int| 0 <= k < self.layers@.len() ==> (#[trigger] self.layers@[k]).wf(glen)
        &&& self.layers@.len() > 0 ==> self.layers@[0].dimensionality == self.number_of_inputs
        &&& forall|k: int|
            1 <= k < self.layers@.len() ==> (#[trigger] self.layers@[k]).dimensionality
                == self.layers@[k - 1].neurons@.len()
    }

    /// Creates one layer per entry of `neurons_allocation`, chaining the
    /// widths from `number_of_inputs`; earlier nodes are untouched.
    pub fn new(
        graph: &mut Graph,
        number_of_inputs: usize,
        neurons_allocation: Vec<usize>,
    ) -> (r: MultiLayerPerceptron)
        requires
            old(graph).wf(),
        ensures
            final(graph).wf(),
            old(graph).nodes@.len() <= final(graph).nodes@.len(),
            r.wf(final(graph).nodes@.len() as int),
            r.number_of_inputs == number_of_inputs,
            r.layers@.len() == neurons_allocation@.len(),
            forall|k: int|
                0 <= k < r.layers@.len() ==> (#[trigger] r.layers@[k]).neurons@.len()
                    == neurons_allocation@[k],
            forall|j: int|
                0 <= j < old(graph).nodes@.len() ==> final(graph).nodes@[j] == old(graph).nodes@[j],
    {
        let ghost g0 = graph.nodes@;
        let mut layers: Vec<Layer> = Vec::new();
        let mut dim = number_of_inputs;
        let mut i: usize = 0;
        while i < neurons_allocation.len()
            invariant
                graph.wf(),
                i <= neurons_allocation@.len(),
                layers@.len() == i,
                dim == (if i == 0 {
                    number_of_inputs as int
                } else {
                    neurons_allocation@[i - 1] as int
                }),
                g0.len() <= graph.nodes@.len(),
                forall|j: int| 0 <= j < g0.len() ==> graph.nodes@[j] == g0[j],
                forall|k: int|
                    0 <= k < layers@.len() ==> (#[trigger] layers@[k]).wf(
                        graph.nodes@.len() as int,
                    ),
                i > 0 ==> layers@[0].dimensionality == number_of_inputs,
                forall|k: int|
                    1 <= k < layers@.len() ==> (#[trigger] layers@[k]).dimensionality
                        == layers@[k - 1].neurons@.len(),
                forall|k: int|
                    0 <= k < layers@.len() ==> (#[trigger] layers@[k]).neurons@.len()
                        == neurons_allocation@[k],
            decreases neurons_allocation@.len() - i,
        {
            let count = neurons_allocation[i];
            let ghost len_before = graph.nodes@.len() as int;
            let l = Layer::new(graph, dim, count);
            proof {
                assert forall|k: int|
                    0 <= k < layers@.len() implies (#[trigger] layers@[k]).wf(
                    graph.nodes@.len() as int,
                ) by {
                    lemma_layer_wf_monotone(layers@[k], len_before, graph.nodes@.len() as int);
                }
            }
            layers.push(l);
            dim = count;
            i = i + 1;
        }
        MultiLayerPerceptron { layers, number_of_inputs }
    }

    /// Threads the input vector through the layers in order and returns the
    /// final layer's outputs (the inputs themselves if there are no layers).
    /// An input vector whose width disagrees with the declared input count
    /// is rejected, with the graph left exactly as it was.
    pub fn forward(&self, graph: &mut Graph, x: &Vec<Value>) -> (r: Result<Vec<Value>, String>)
        requires
            old(graph).wf(),
            self.wf(old(graph).nodes@.len() as int),
            forall|k: int| 0 <= k < x@.len() ==> (#[trigger] x@[k]).id < old(graph).nodes@.len(),
        ensures
            final(graph).wf(),
            old(graph).nodes@.len() <= final(graph).nodes@.len(),
            r is Err <==> x@.len() != self.number_of_inputs,
            r is Err ==> *final(graph) == *old(graph),
            r is Ok ==> ({
                let out = r->Ok_0;
                &&& forall|j: int|
                    0 <= j < old(graph).nodes@.len() ==> final(graph).nodes@[j] == old(graph).nodes@[j]
                &&& out@.len() == (if self.layers@.len() == 0 {
                    x@.len() as int
                } else {
                    self.layers@[self.layers@.len() - 1].neurons@.len() as int
                })
                &&& forall|k: int|
                    0 <= k < out@.len() ==> (#[trigger] out@[k]).id < final(graph).nodes@.len()
                &&& (self.layers@.len() > 0 ==> forall|k: int|
                    0 <= k < out@.len() ==> final(graph).nodes@[(#[trigger] out@[k]).id as int].operation
                        is Tanh)
            }),
    {
        if x.len() != self.number_of_inputs {
            return Err("Vector does not contain the right amount of inputs for this MLP".to_owned());
        }
        let ghost g0 = graph.nodes@;
        let mut current: Vec<Value> = Vec::new();
        let mut ci: usize = 0;
        while ci < x.len()
            invariant
                ci <= x@.len(),
                current@.len() == ci,
                forall|k: int| 0 <= k < ci ==> current@[k] == x@[k],
            decreases x@.len() - ci,
        {
            current.push(x[ci]);
            ci = ci + 1;
        }
        proof {
            assert(current@ =~= x@);
        }
        let mut li: usize = 0;
        while li < self.layers.len()
            invariant
                graph.wf(),
                li <= self.layers@.len(),
                self.wf(g0.len() as int),
                g0.len() <= graph.nodes@.len(),
                forall|j: int| 0 <= j < g0.len() ==> graph.nodes@[j] == g0[j],
                current@.len() == (if li == 0 {
                    self.number_of_inputs as int
                } else {
                    self.layers@[li - 1].neurons@.len() as int
                }),
                forall|k: int|
                    0 <= k < current@.len() ==> (#[trigger] current@[k]).id
                        < graph.nodes@.len(),
                li > 0 ==> forall|k: int|
                    0 <= k < current@.len() ==> graph.nodes@[(#[trigger] current@[k]).id as int].operation
                        is Tanh,
            decreases self.layers@.len() - li,
        {
            let layer = &self.layers[li];
            proof {
                lemma_layer_wf_monotone(self.layers@[li as int], g0.len() as int, graph.nodes@.len() as int);
            }
            let res = layer.forward(graph, &current);
            match res {
                Ok(v) => {
                    current = v;
                },
                Err(e) => {
                    proof {
                        assert(false);
                    }
                    return Err(e);
                },
            }
            li = li + 1;
        }
        Ok(current)
    }
}

} // verus!
