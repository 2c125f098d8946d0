use autograd::engine::Exp;
use autograd::engine::Graph;
use autograd::engine::Operation;
use autograd::engine::Power;
use autograd::engine::Exponent;
use autograd::engine::Value;
use num_bigfloat::BigFloat;

fn bf(x: f64) -> BigFloat {
    BigFloat::from_f64(x)
}

fn to_f64(x: BigFloat) -> f64 {
    x.to_f64()
}

#[test]
fn forward_add() {
    let mut g = Graph::new();
    let a = Value::new(&mut g, bf(2.0));
    let b = Value::new(&mut g, bf(3.0));
    let c = a.add(&mut g, b);
    assert_eq!(to_f64(c.value(&g)), 5.0);
}

#[test]
fn forward_multiply() {
    let mut g = Graph::new();
    let a = Value::new(&mut g, bf(3.0));
    let b = Value::new(&mut g, bf(4.0));
    let c = a.mul(&mut g, b);
    assert_eq!(to_f64(c.value(&g)), 12.0);
}

#[test]
fn forward_subtract() {
    let mut g = Graph::new();
    let a = Value::new(&mut g, bf(7.0));
    let b = Value::new(&mut g, bf(9.0));
    let c = a.sub(&mut g, b);
    assert_eq!(to_f64(c.value(&g)), -2.0);
    // subtraction is sugar: a -1 leaf, a product and a sum were appended
    assert_eq!(g.len(), 5);
}

#[test]
fn forward_divide() {
    let mut g = Graph::new();
    let a = Value::new(&mut g, bf(1.0));
    let b = Value::new(&mut g, bf(4.0));
    let c = a.div(&mut g, b);
    assert_eq!(to_f64(c.value(&g)), 0.25);
}

#[test]
fn forward_divide_negative() {
    let mut g = Graph::new();
    let a = Value::new(&mut g, bf(-6.0));
    let b = Value::new(&mut g, bf(-2.0));
    let c = a.div(&mut g, b);
    assert!((to_f64(c.value(&g)) - 3.0).abs() < 1e-12);
}

#[test]
fn forward_power() {
    let mut g = Graph::new();
    let a = Value::new(&mut g, bf(2.0));
    let c = a.power(&mut g, Exponent { value: bf(3.0) });
    assert_eq!(to_f64(c.value(&g)), 8.0);
    let d = Value::new(&mut g, bf(9.0));
    let e = d.power(&mut g, Exponent { value: bf(0.5) });
    assert!((to_f64(e.value(&g)) - 3.0).abs() < 1e-12);
}

#[test]
fn forward_exp() {
    let mut g = Graph::new();
    let a = Value::new(&mut g, bf(0.0));
    let c = a.exp(&mut g);
    assert_eq!(to_f64(c.value(&g)), 1.0);
    let b = Value::new(&mut g, bf(1.0));
    let d = b.exp(&mut g);
    assert!((to_f64(d.value(&g)) - 1.0f64.exp()).abs() < 1e-12);
}

#[test]
fn forward_tanh() {
    let mut g = Graph::new();
    let a = Value::new(&mut g, bf(0.0));
    let c = a.tanh(&mut g);
    assert_eq!(to_f64(c.value(&g)), 0.0);
    let b = Value::new(&mut g, bf(2.0));
    let d = b.tanh(&mut g);
    assert!((to_f64(d.value(&g)) - 2.0f64.tanh()).abs() < 1e-12);
}

#[test]
fn additive_gradient() {
    let mut g = Graph::new();
    let a = Value::new(&mut g, bf(1.0));
    let b = Value::new(&mut g, bf(-2.0));
    let c = a.add(&mut g, b);
    c.backwards(&mut g);
    assert_eq!(to_f64(a.gradient(&g)), 1.0);
    assert_eq!(to_f64(b.gradient(&g)), 1.0);
}

#[test]
fn shared_subexpression_accumulation() {
    let mut g = Graph::new();
    let a = Value::new(&mut g, bf(3.0));
    let d = a.mul(&mut g, a);
    d.backwards(&mut g);
    // both uses of `a` contribute: 3 + 3, summed rather than overwritten
    assert_eq!(to_f64(a.gradient(&g)), 6.0);
}

#[test]
fn saturation_check() {
    let mut g = Graph::new();
    let x = Value::new(&mut g, bf(10.0));
    let y = x.tanh(&mut g);
    y.backwards(&mut g);
    let expected: f64 = 1.0 - 10.0f64.tanh().powi(2);
    assert!((to_f64(x.gradient(&g)) - expected).abs() < 1e-9);
    assert!(to_f64(x.gradient(&g)) > 0.0);
}

#[test]
fn power_gradient_scales_by_upstream() {
    let mut g = Graph::new();
    let a = Value::new(&mut g, bf(3.0));
    let b = Value::new(&mut g, bf(5.0));
    let p = a.power(&mut g, Exponent { value: bf(2.0) });
    let y = b.mul(&mut g, p);
    y.backwards(&mut g);
    // dy/da = b * k * a^(k-1) = 5 * 2 * 3 = 30: the local rule is scaled by
    // the upstream gradient, not applied bare
    assert!((to_f64(a.gradient(&g)) - 30.0).abs() < 1e-9);
    // dy/db = a^2 = 9
    assert!((to_f64(b.gradient(&g)) - 9.0).abs() < 1e-9);
}

#[test]
fn exp_gradient_is_own_value() {
    let mut g = Graph::new();
    let x = Value::new(&mut g, bf(1.5));
    let y = x.exp(&mut g);
    y.backwards(&mut g);
    assert!((to_f64(x.gradient(&g)) - to_f64(y.value(&g))).abs() < 1e-12);
}

#[test]
fn divide_gradient() {
    let mut g = Graph::new();
    let a = Value::new(&mut g, bf(1.0));
    let b = Value::new(&mut g, bf(2.0));
    let y = a.div(&mut g, b);
    y.backwards(&mut g);
    // d(a/b)/da = 1/b = 0.5 ; d(a/b)/db = -a/b^2 = -0.25
    assert!((to_f64(a.gradient(&g)) - 0.5).abs() < 1e-9);
    assert!((to_f64(b.gradient(&g)) + 0.25).abs() < 1e-9);
}

#[test]
fn tanh_gradient_uses_output_value() {
    let mut g = Graph::new();
    let x = Value::new(&mut g, bf(0.5));
    let y = x.tanh(&mut g);
    y.backwards(&mut g);
    let t: f64 = 0.5f64.tanh();
    assert!((to_f64(x.gradient(&g)) - (1.0 - t * t)).abs() < 1e-9);
}

#[test]
fn chained_expression_gradient() {
    // y = (a + b) * a with a = 2, b = 3: dy/da = 2a + b = 7, dy/db = a = 2
    let mut g = Graph::new();
    let a = Value::new(&mut g, bf(2.0));
    let b = Value::new(&mut g, bf(3.0));
    let s = a.add(&mut g, b);
    let y = s.mul(&mut g, a);
    y.backwards(&mut g);
    assert!((to_f64(a.gradient(&g)) - 7.0).abs() < 1e-9);
    assert!((to_f64(b.gradient(&g)) - 2.0).abs() < 1e-9);
}

#[test]
fn repeated_backward_compounds() {
    // gradients are not reset between passes: that is the caller's duty
    let mut g = Graph::new();
    let a = Value::new(&mut g, bf(1.0));
    let b = Value::new(&mut g, bf(2.0));
    let c = a.add(&mut g, b);
    c.backwards(&mut g);
    c.backwards(&mut g);
    assert_eq!(to_f64(a.gradient(&g)), 2.0);
}

#[test]
fn gradient_starts_at_zero() {
    let mut g = Graph::new();
    let a = Value::new(&mut g, bf(42.0));
    assert_eq!(to_f64(a.gradient(&g)), 0.0);
    let b = Value::new(&mut g, bf(1.0));
    let c = a.mul(&mut g, b);
    assert_eq!(to_f64(c.gradient(&g)), 0.0);
}

#[test]
fn backward_leaves_values_alone() {
    let mut g = Graph::new();
    let a = Value::new(&mut g, bf(2.0));
    let b = Value::new(&mut g, bf(3.0));
    let c = a.mul(&mut g, b);
    c.backwards(&mut g);
    assert_eq!(to_f64(a.value(&g)), 2.0);
    assert_eq!(to_f64(b.value(&g)), 3.0);
    assert_eq!(to_f64(c.value(&g)), 6.0);
    assert_eq!(g.len(), 3);
}

#[test]
fn topological_order_is_valid() {
    // a diamond with a shared node: b = a + a, c = b * a
    let mut g = Graph::new();
    let a = Value::new(&mut g, bf(1.5));
    let b = a.add(&mut g, a);
    let c = b.mul(&mut g, a);
    let ord = c.order(&g);
    // every reachable node exactly once, root last
    assert_eq!(ord.len(), 3);
    assert_eq!(ord[ord.len() - 1].id, c.id);
    for i in 0..ord.len() {
        for j in 0..ord.len() {
            if i != j {
                assert_ne!(ord[i].id, ord[j].id);
            }
        }
    }
    // every node appears strictly after all of its operands
    for i in 0..ord.len() {
        let operands: Vec<usize> = match g.nodes[ord[i].id].operation {
            Operation::Addition(x, y) => vec![x.id, y.id],
            Operation::Multiplication(x, y) => vec![x.id, y.id],
            Operation::Power(x, _) => vec![x.id],
            Operation::Tanh(x) => vec![x.id],
            Operation::Exp(x) => vec![x.id],
            Operation::Base => vec![],
        };
        for p in operands {
            let pos = ord.iter().position(|v| v.id == p).expect("operand missing");
            assert!(pos < i);
        }
    }
}

#[test]
fn order_visits_only_reachable_nodes() {
    let mut g = Graph::new();
    let a = Value::new(&mut g, bf(1.0));
    let _unrelated = Value::new(&mut g, bf(9.0));
    let b = Value::new(&mut g, bf(2.0));
    let c = a.mul(&mut g, b);
    let ord = c.order(&g);
    assert_eq!(ord.len(), 3);
    assert!(ord.iter().all(|v| v.id != _unrelated.id));
}

#[test]
fn backward_leaves_unreachable_nodes_alone() {
    let mut g = Graph::new();
    let a = Value::new(&mut g, bf(1.0));
    let unrelated = Value::new(&mut g, bf(9.0));
    let b = Value::new(&mut g, bf(2.0));
    let c = a.mul(&mut g, b);
    c.backwards(&mut g);
    assert_eq!(to_f64(unrelated.gradient(&g)), 0.0);
    assert_eq!(to_f64(unrelated.value(&g)), 9.0);
}

#[test]
fn ids_are_unique_and_monotonic() {
    let mut g = Graph::new();
    let mut handles: Vec<Value> = Vec::new();
    for i in 0..100 {
        let v = Value::new(&mut g, bf(i as f64));
        handles.push(v);
    }
    let mut prev: usize = handles[0].id;
    for k in 1..handles.len() {
        let id: usize = handles[k].id;
        assert!(id > prev);
        prev = id;
    }
    for i in 0..handles.len() {
        for j in 0..handles.len() {
            if i != j {
                assert_ne!(handles[i].id, handles[j].id);
            }
        }
    }
    // the id stored in the node agrees with the handle
    for h in &handles {
        assert_eq!(g.nodes[h.id].id, h.id);
    }
}

#[test]
fn nan_propagates_silently() {
    // an undefined quotient yields NaN, not an error, and NaN flows on
    // through later operations
    let mut g = Graph::new();
    let a = Value::new(&mut g, bf(0.0));
    let b = Value::new(&mut g, bf(0.0));
    let c = a.div(&mut g, b);
    assert!(to_f64(c.value(&g)).is_nan());
    let d = c.add(&mut g, a);
    assert!(to_f64(d.value(&g)).is_nan());
}
