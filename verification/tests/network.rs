use autograd::engine::Graph;
use autograd::engine::Value;
use autograd::network::Layer;
use autograd::network::MultiLayerPerceptron;
use autograd::network::Neuron;
use num_bigfloat::BigFloat;

fn num(x: f64) -> BigFloat {
    BigFloat::from_f64(x)
}

fn as_f64(x: BigFloat) -> f64 {
    x.to_f64()
}

fn leaf_vec(g: &mut Graph, xs: &[f64]) -> Vec<Value> {
    let mut out: Vec<Value> = Vec::new();
    for x in xs {
        out.push(Value::new(g, num(*x)));
    }
    out
}

#[test]
fn neuron_weights_lie_in_unit_interval() {
    let mut g = Graph::new();
    let n = Neuron::new(&mut g, 8);
    assert_eq!(n.weights.len(), 8);
    for w in &n.weights {
        let v = as_f64(w.value(&g));
        assert!(v >= -1.0 && v < 1.0);
    }
    let b = as_f64(n.bias.value(&g));
    assert!(b >= -1.0 && b < 1.0);
}

#[test]
fn neuron_forward_matches_closed_form() {
    let mut g = Graph::new();
    let w = leaf_vec(&mut g, &[2.0, -1.0]);
    let bias = Value::new(&mut g, num(0.5));
    let neuron = Neuron { weights: w, bias };
    let x = leaf_vec(&mut g, &[3.0, 4.0]);
    let out = neuron.forward(&mut g, &x).expect("widths agree");
    let expected: f64 = (2.0 * 3.0 + (-1.0) * 4.0 + 0.5f64).tanh();
    assert!((as_f64(out.value(&g)) - expected).abs() < 1e-9);
}

#[test]
fn neuron_forward_dimension_mismatch() {
    let mut g = Graph::new();
    let neuron = Neuron::new(&mut g, 3);
    let before = g.len();
    let x = leaf_vec(&mut g, &[1.0, 2.0]);
    let after_leaves = g.len();
    let r = neuron.forward(&mut g, &x);
    assert!(r.is_err());
    // the failed call created nothing and mutated nothing
    assert_eq!(g.len(), after_leaves);
    assert_eq!(before + 2, after_leaves);
    for i in 0..g.len() {
        assert_eq!(as_f64(g.nodes[i].gradient), 0.0);
    }
}

#[test]
fn layer_forward_width_and_mismatch() {
    let mut g = Graph::new();
    let layer = Layer::new(&mut g, 2, 3);
    let x = leaf_vec(&mut g, &[1.0, -1.0]);
    let out = layer.forward(&mut g, &x).expect("widths agree");
    assert_eq!(out.len(), 3);
    for o in &out {
        let v = as_f64(o.value(&g));
        assert!(v > -1.0 && v < 1.0);
    }
    let bad = leaf_vec(&mut g, &[1.0, 2.0, 3.0]);
    let len_before = g.len();
    let r = layer.forward(&mut g, &bad);
    assert!(r.is_err());
    assert_eq!(g.len(), len_before);
}

#[test]
fn mlp_dimension_mismatch_mutates_nothing() {
    let mut g = Graph::new();
    let network = MultiLayerPerceptron::new(&mut g, 3, vec![4, 7, 5, 1]);
    let x = leaf_vec(&mut g, &[3.0, -9.5]);
    let len_before = g.len();
    let values_before: Vec<f64> = (0..g.len()).map(|i| as_f64(g.nodes[i].value)).collect();
    let r = network.forward(&mut g, &x);
    assert!(r.is_err());
    assert_eq!(g.len(), len_before);
    for i in 0..g.len() {
        assert_eq!(as_f64(g.nodes[i].value), values_before[i]);
        assert_eq!(as_f64(g.nodes[i].gradient), 0.0);
    }
}

#[test]
fn mlp_forward_output_width() {
    let mut g = Graph::new();
    let network = MultiLayerPerceptron::new(&mut g, 3, vec![4, 2]);
    let x = leaf_vec(&mut g, &[0.5, -0.5, 0.25]);
    let out = network.forward(&mut g, &x).expect("widths agree");
    assert_eq!(out.len(), 2);
    for o in &out {
        let v = as_f64(o.value(&g));
        assert!(v > -1.0 && v < 1.0);
    }
}

#[test]
fn mlp_backward_reaches_inputs() {
    let mut g = Graph::new();
    let network = MultiLayerPerceptron::new(&mut g, 2, vec![3, 1]);
    let x = leaf_vec(&mut g, &[0.3, -0.7]);
    let out = network.forward(&mut g, &x).expect("widths agree");
    assert_eq!(out.len(), 1);
    out[0].backwards(&mut g);
    assert_eq!(as_f64(out[0].gradient(&g)), 1.0);
    for xi in &x {
        assert!(as_f64(xi.gradient(&g)).is_finite());
    }
}

#[test]
fn mlp_with_no_layers_returns_inputs() {
    let mut g = Graph::new();
    let network = MultiLayerPerceptron::new(&mut g, 2, Vec::new());
    let x = leaf_vec(&mut g, &[1.0, 2.0]);
    let out = network.forward(&mut g, &x).expect("widths agree");
    assert_eq!(out.len(), 2);
    assert_eq!(as_f64(out[0].value(&g)), 1.0);
    assert_eq!(as_f64(out[1].value(&g)), 2.0);
}
