use autograd::engine::Value;
use autograd::graph::Graph;
use autograd::nn::{training_example, Layer, Module, Neuron, MLP};
use autograd::scalar::{Prim, ONE, ZERO};
use rand::Rng;
use std::cell::Cell;

fn unit(p: Prim, a: u64, b: u64) -> u64 {
    let x = f64::from_bits(a);
    let y = f64::from_bits(b);
    let r = match p {
        Prim::Add => x + y,
        Prim::Sub => x - y,
        Prim::Mul => x * y,
        Prim::Div => x / y,
        Prim::Neg => -x,
        Prim::Exp => x.exp(),
        Prim::Powf => x.powf(y),
    };
    r.to_bits()
}

fn uniform() -> u64 {
    let drawn: f64 = rand::thread_rng().gen_range(-1.0..1.0);
    drawn.to_bits()
}

fn leaf<F: Fn(Prim, u64, u64) -> u64>(g: &mut Graph<F>, v: f64, label: &str) -> Value {
    Value::new(v.to_bits(), label.to_string(), g)
}

fn data<F: Fn(Prim, u64, u64) -> u64>(g: &Graph<F>, v: Value) -> f64 {
    f64::from_bits(v.data(g))
}

fn grad<F: Fn(Prim, u64, u64) -> u64>(g: &Graph<F>, v: Value) -> f64 {
    f64::from_bits(v.grad(g))
}

fn set<F: Fn(Prim, u64, u64) -> u64>(g: &mut Graph<F>, params: &[Value], values: &[f64]) {
    assert_eq!(params.len(), values.len());
    for (p, v) in params.iter().zip(values.iter()) {
        p.set_data(v.to_bits(), g);
    }
}

#[test]
fn neuron_has_a_weight_for_each_input_and_a_zero_bias() {
    let mut g = Graph::new(unit);
    let next = Cell::new(0.0f64);
    let counting = || {
        next.set(next.get() + 0.25);
        next.get().to_bits()
    };
    let neuron = Neuron::new(3, true, &mut g, &counting);
    let params = neuron.parameters();
    assert_eq!(params.len(), 4);
    assert_eq!(g.len(), 4);
    assert_eq!(params, vec![Value { id: 0 }, Value { id: 1 }, Value { id: 2 }, Value { id: 3 }]);
    assert_eq!(params[0].label(&g), "w0");
    assert_eq!(params[1].label(&g), "w1");
    assert_eq!(params[2].label(&g), "w2");
    assert_eq!(params[3].label(&g), "b");
    assert_eq!(data(&g, params[0]), 0.25);
    assert_eq!(data(&g, params[1]), 0.5);
    assert_eq!(data(&g, params[2]), 0.75);
    assert_eq!(params[3].data(&g), ZERO);
    for p in params.iter() {
        assert_eq!(p.grad(&g), ZERO);
        assert_eq!(p.op(&g), "");
        assert!(p.prev(&g).is_empty());
    }
}

#[test]
fn neuron_of_no_inputs_has_only_a_bias() {
    let mut g = Graph::new(unit);
    let neuron = Neuron::new(0, false, &mut g, &uniform);
    let params = neuron.parameters();
    assert_eq!(params.len(), 1);
    assert_eq!(params[0].label(&g), "b");
    assert_eq!(g.len(), 1);
}

#[test]
fn neuron_of_no_inputs_gives_its_bias_plus_zero_in_a_new_node() {
    let mut g = Graph::new(unit);
    let neuron = Neuron::new(0, false, &mut g, &uniform);
    let bias = neuron.parameters()[0];
    bias.set_data(0.75f64.to_bits(), &mut g);
    let out = neuron.forward(&[], &mut g);
    assert_eq!(g.len(), 3);
    assert_ne!(out, bias);
    assert_eq!(out.id, 2);
    assert_eq!(data(&g, out), 0.75);
    assert_eq!(out.op(&g), "+");
    let zero = Value { id: 1 };
    assert_eq!(out.prev(&g), vec![bias, zero]);
    assert_eq!(zero.data(&g), ZERO);
    assert_eq!(zero.label(&g), "0");
    assert_eq!(zero.op(&g), "");
    assert!(zero.prev(&g).is_empty());
    assert_eq!(out.label(&g), "(b_+_0");
    out.backward(&mut g);
    assert_eq!(grad(&g, bias), 1.0);
}

#[test]
fn forward_returns_a_new_node_on_every_call() {
    let cases: [(usize, bool, usize); 8] = [
        (0, false, 0),
        (0, true, 0),
        (0, false, 2),
        (0, true, 2),
        (2, false, 0),
        (2, true, 0),
        (2, false, 2),
        (2, true, 3),
    ];
    for &(nin, nonlin, given) in cases.iter() {
        let mut g = Graph::new(unit);
        let neuron = Neuron::new(nin, nonlin, &mut g, &uniform);
        let params = neuron.parameters();
        let mut x = Vec::new();
        for i in 0..given {
            x.push(leaf(&mut g, i as f64 + 0.5, "x"));
        }
        let before = g.len();
        let first = neuron.forward(&x, &mut g);
        let between = g.len();
        let second = neuron.forward(&x, &mut g);
        assert_ne!(first, second);
        assert_eq!(first.data(&g), second.data(&g));
        assert!(before <= first.id && first.id < between);
        assert!(between <= second.id && second.id < g.len());
        assert_eq!(first.id, between - 1);
        assert_eq!(second.id, g.len() - 1);
        assert!(!params.contains(&first));
        assert!(!params.contains(&second));
        assert!(!x.contains(&first));
        let pairs = if nin.min(given) == 0 { 1 } else { nin.min(given) };
        assert_eq!(between - before, 2 * pairs + if nonlin { 1 } else { 0 });
    }
}

#[test]
fn rectified_neuron_of_no_inputs_rectifies_its_bias_plus_zero() {
    let mut g = Graph::new(unit);
    let neuron = Neuron::new(0, true, &mut g, &uniform);
    let bias = neuron.parameters()[0];
    bias.set_data((-0.25f64).to_bits(), &mut g);
    let off = neuron.forward(&[], &mut g);
    assert_eq!(g.len(), 4);
    assert_eq!(off.op(&g), "relu");
    assert_eq!(data(&g, off), 0.0);
    assert_eq!(data(&g, off.prev(&g)[0]), -0.25);
    bias.set_data(0.25f64.to_bits(), &mut g);
    let on = neuron.forward(&[], &mut g);
    assert_eq!(data(&g, on), 0.25);
    on.backward(&mut g);
    assert_eq!(grad(&g, bias), 1.0);
}

#[test]
fn layer_of_neurons_without_inputs_gives_new_nodes() {
    let mut g = Graph::new(unit);
    let layer = Layer::new(0, 2, false, &mut g, &uniform);
    let params = layer.parameters();
    assert_eq!(params.len(), 2);
    let outs = layer.forward(&[], &mut g);
    assert_eq!(outs.len(), 2);
    assert_eq!(g.len(), 2 + 4);
    assert_eq!(outs[0].id, 3);
    assert_eq!(outs[1].id, 5);
    for out in outs.iter() {
        assert!(!params.contains(out));
    }
    assert_eq!(outs[0].prev(&g)[0], params[0]);
    assert_eq!(outs[1].prev(&g)[0], params[1]);
}

#[test]
fn neuron_weights_are_labelled_in_decimal() {
    let mut g = Graph::new(unit);
    let neuron = Neuron::new(12, false, &mut g, &uniform);
    let params = neuron.parameters();
    assert_eq!(params[9].label(&g), "w9");
    assert_eq!(params[10].label(&g), "w10");
    assert_eq!(params[11].label(&g), "w11");
    assert_eq!(params[12].label(&g), "b");
}

#[test]
fn random_weights_lie_in_the_samplers_range() {
    let mut g = Graph::new(unit);
    let neuron = Neuron::new(200, false, &mut g, &uniform);
    let params = neuron.parameters();
    for p in params[..200].iter() {
        let w = data(&g, *p);
        assert!(-1.0 <= w && w < 1.0);
    }
}

#[test]
fn neuron_forward_is_bias_plus_weighted_sum() {
    let mut g = Graph::new(unit);
    let neuron = Neuron::new(3, false, &mut g, &uniform);
    let params = neuron.parameters();
    set(&mut g, &params, &[0.5, -2.0, 0.25, 1.0]);
    let x = vec![leaf(&mut g, 2.0, "x0"), leaf(&mut g, 3.0, "x1"), leaf(&mut g, -4.0, "x2")];
    let before = g.len();
    let out = neuron.forward(&x, &mut g);
    assert_eq!(data(&g, out), ((1.0 + 0.5 * 2.0) + -2.0 * 3.0) + 0.25 * -4.0);
    assert_eq!(data(&g, out), -5.0);
    assert_eq!(g.len(), before + 6);
    assert_eq!(out.op(&g), "+");
    let last = out.prev(&g);
    assert_eq!(last.len(), 2);
    assert_eq!(last[1].op(&g), "*");
    assert_eq!(last[1].prev(&g), vec![params[2], x[2]]);
    assert_eq!(last[0].op(&g), "+");
    let first_product = Value { id: before };
    assert_eq!(first_product.prev(&g), vec![params[0], x[0]]);
    let first_sum = Value { id: before + 1 };
    assert_eq!(first_sum.prev(&g), vec![params[3], first_product]);
    assert_eq!(first_sum.label(&g), "(b_+_(w0_*_x0");
}

#[test]
fn neuron_rectifies_when_nonlinear() {
    let mut g = Graph::new(unit);
    let neuron = Neuron::new(2, true, &mut g, &uniform);
    let params = neuron.parameters();
    set(&mut g, &params, &[1.0, 1.0, 0.5]);
    let low = vec![leaf(&mut g, -2.0, "x0"), leaf(&mut g, 1.0, "x1")];
    let high = vec![leaf(&mut g, 2.0, "x0"), leaf(&mut g, 1.0, "x1")];
    let before = g.len();
    let off = neuron.forward(&low, &mut g);
    assert_eq!(g.len(), before + 5);
    let on = neuron.forward(&high, &mut g);
    assert_eq!(data(&g, off), 0.0);
    assert_eq!(data(&g, on), 3.5);
    assert_eq!(off.op(&g), "relu");
    assert_eq!(on.op(&g), "relu");
    assert_eq!(data(&g, off.prev(&g)[0]), -0.5);
}

#[test]
fn neuron_forward_makes_a_new_node_each_time() {
    let mut g = Graph::new(unit);
    let neuron = Neuron::new(1, false, &mut g, &uniform);
    let x = vec![leaf(&mut g, 2.0, "x0")];
    let first = neuron.forward(&x, &mut g);
    let second = neuron.forward(&x, &mut g);
    assert_ne!(first, second);
    assert_eq!(first.data(&g), second.data(&g));
    assert_eq!(neuron.parameters().len(), 2);
}

#[test]
fn neuron_pairs_inputs_with_weights_as_far_as_both_go() {
    let mut g = Graph::new(unit);
    let neuron = Neuron::new(2, false, &mut g, &uniform);
    let params = neuron.parameters();
    set(&mut g, &params, &[2.0, 3.0, 1.0]);
    let long = vec![leaf(&mut g, 1.0, "x0"), leaf(&mut g, 1.0, "x1"), leaf(&mut g, 100.0, "x2")];
    let short = vec![leaf(&mut g, 1.0, "x0")];
    let before = g.len();
    let all = neuron.forward(&long, &mut g);
    assert_eq!(data(&g, all), 6.0);
    assert_eq!(g.len(), before + 4);
    let some = neuron.forward(&short, &mut g);
    assert_eq!(data(&g, some), 3.0);
    assert_eq!(g.len(), before + 6);
}

#[test]
fn layer_has_one_output_for_each_neuron() {
    let mut g = Graph::new(unit);
    let layer = Layer::new(2, 3, true, &mut g, &uniform);
    assert_eq!(g.len(), 9);
    let params = layer.parameters();
    assert_eq!(params.len(), 9);
    for (i, p) in params.iter().enumerate() {
        assert_eq!(p.id, i);
    }
    assert_eq!(params[0].label(&g), "w0");
    assert_eq!(params[2].label(&g), "b");
    assert_eq!(params[3].label(&g), "w0");
    assert_eq!(params[8].label(&g), "b");
    set(&mut g, &params, &[1.0, 0.0, 0.0, 0.0, 1.0, 0.0, -1.0, -1.0, 0.5]);
    let x = vec![leaf(&mut g, 2.0, "x0"), leaf(&mut g, 3.0, "x1")];
    let before = g.len();
    let outs = layer.forward(&x, &mut g);
    assert_eq!(outs.len(), 3);
    assert_eq!(g.len(), before + 15);
    assert_eq!(data(&g, outs[0]), 2.0);
    assert_eq!(data(&g, outs[1]), 3.0);
    assert_eq!(data(&g, outs[2]), 0.0);
    assert_eq!(outs[0].id, before + 4);
    assert_eq!(outs[1].id, before + 9);
    assert_eq!(outs[2].id, before + 14);
}

#[test]
fn layer_without_neurons_gives_nothing() {
    let mut g = Graph::new(unit);
    let layer = Layer::new(3, 0, true, &mut g, &uniform);
    assert_eq!(g.len(), 0);
    assert!(layer.parameters().is_empty());
    let x = vec![leaf(&mut g, 2.0, "x0")];
    assert!(layer.forward(&x, &mut g).is_empty());
    assert_eq!(g.len(), 1);
}

#[test]
fn perceptron_rectifies_every_layer_but_the_last() {
    let mut g = Graph::new(unit);
    let mlp = MLP::new(2, &[4, 3, 1], &mut g, &uniform);
    assert_eq!(g.len(), 4 * 3 + 3 * 5 + 1 * 4);
    assert_eq!(mlp.parameters().len(), 31);
    let x = vec![leaf(&mut g, 1.0, "x0"), leaf(&mut g, -1.0, "x1")];
    let rows = mlp.layer_outputs(x.clone(), &mut g);
    assert_eq!(rows.len(), 4);
    assert_eq!(rows[0], x);
    assert_eq!(rows[1].len(), 4);
    assert_eq!(rows[2].len(), 3);
    assert_eq!(rows[3].len(), 1);
    for hidden in rows[1].iter().chain(rows[2].iter()) {
        assert_eq!(hidden.op(&g), "relu");
        assert!(data(&g, *hidden) >= 0.0);
    }
    assert_eq!(rows[3][0].op(&g), "+");
    assert_eq!(rows[3][0].id, g.len() - 1);
}

#[test]
fn perceptron_with_one_layer_is_linear() {
    let mut g = Graph::new(unit);
    let mlp = MLP::new(2, &[1], &mut g, &uniform);
    let params = mlp.parameters();
    set(&mut g, &params, &[2.0, -3.0, 0.5]);
    let x = vec![leaf(&mut g, -1.0, "x0"), leaf(&mut g, 1.0, "x1")];
    let out = mlp.forward(x, &mut g);
    assert_eq!(out.len(), 1);
    assert_eq!(data(&g, out[0]), -4.5);
}

#[test]
fn perceptron_without_layers_returns_its_inputs() {
    let mut g = Graph::new(unit);
    let mlp = MLP::new(2, &[], &mut g, &uniform);
    assert_eq!(g.len(), 0);
    assert!(mlp.parameters().is_empty());
    let x = vec![leaf(&mut g, 1.0, "x0"), leaf(&mut g, -1.0, "x1")];
    assert_eq!(mlp.forward(x.clone(), &mut g), x);
    assert_eq!(mlp.layer_outputs(x.clone(), &mut g), vec![x]);
    assert_eq!(g.len(), 2);
}

#[test]
fn perceptron_threads_inputs_through_its_layers() {
    let mut g = Graph::new(unit);
    let mlp = MLP::new(2, &[2, 1], &mut g, &uniform);
    let params = mlp.parameters();
    set(&mut g, &params, &[1.0, 1.0, 0.0, 1.0, -1.0, 0.0, 2.0, 3.0, 1.0]);
    let x = vec![leaf(&mut g, 3.0, "x0"), leaf(&mut g, 1.0, "x1")];
    let before = g.len();
    let out = mlp.forward(x.clone(), &mut g);
    assert_eq!(out.len(), 1);
    assert_eq!(data(&g, out[0]), 1.0 + 2.0 * 4.0 + 3.0 * 2.0);
    assert_eq!(g.len(), before + 2 * 5 + 4);
    let rows = mlp.layer_outputs(x.clone(), &mut g);
    assert_eq!(data(&g, rows[1][0]), 4.0);
    assert_eq!(data(&g, rows[1][1]), 2.0);
    assert_eq!(rows[2][0].data(&g), out[0].data(&g));
    assert_ne!(rows[2][0], out[0]);
}

#[test]
fn parameters_come_layer_by_layer_neuron_by_neuron() {
    let mut g = Graph::new(unit);
    let _ = leaf(&mut g, 0.0, "first");
    let mlp = MLP::new(3, &[2, 2], &mut g, &uniform);
    let params = mlp.parameters();
    assert_eq!(params.len(), 2 * 4 + 2 * 3);
    for (i, p) in params.iter().enumerate() {
        assert_eq!(p.id, i + 1);
    }
    let labels: Vec<String> = params.iter().map(|p| p.label(&g)).collect();
    assert_eq!(
        labels,
        vec!["w0", "w1", "w2", "b", "w0", "w1", "w2", "b", "w0", "w1", "b", "w0", "w1", "b"]
    );
}

#[test]
fn zero_grad_resets_every_parameter_and_nothing_else() {
    let mut g = Graph::new(unit);
    let mlp = MLP::new(2, &[3, 1], &mut g, &uniform);
    let x = vec![leaf(&mut g, 1.0, "x0"), leaf(&mut g, 2.0, "x1")];
    let out = mlp.forward(x.clone(), &mut g);
    out[0].backward(&mut g);
    let params = mlp.parameters();
    for (i, p) in params.iter().enumerate() {
        p.set_grad((i as f64 + 0.5).to_bits(), &mut g);
    }
    x[0].set_grad(3.0f64.to_bits(), &mut g);
    mlp.zero_grad(&mut g);
    for p in params.iter() {
        assert_eq!(p.grad(&g), ZERO);
        assert_eq!(grad(&g, *p), 0.0);
    }
    assert_eq!(grad(&g, x[0]), 3.0);
    assert_eq!(out[0].grad(&g), ONE);
    mlp.zero_grad(&mut g);
    for p in params.iter() {
        assert_eq!(p.grad(&g), ZERO);
    }
}

#[test]
fn zero_grad_of_neuron_and_layer() {
    let mut g = Graph::new(unit);
    let neuron = Neuron::new(2, false, &mut g, &uniform);
    let layer = Layer::new(2, 2, false, &mut g, &uniform);
    for id in 0..g.len() {
        Value { id }.set_grad(ONE, &mut g);
    }
    neuron.zero_grad(&mut g);
    for id in 0..3 {
        assert_eq!(Value { id }.grad(&g), ZERO);
    }
    for id in 3..9 {
        assert_eq!(Value { id }.grad(&g), ONE);
    }
    layer.zero_grad(&mut g);
    for id in 0..9 {
        assert_eq!(Value { id }.grad(&g), ZERO);
    }
}

#[test]
fn update_moves_each_parameter_against_its_gradient() {
    let mut g = Graph::new(unit);
    let neuron = Neuron::new(2, false, &mut g, &uniform);
    let params = neuron.parameters();
    set(&mut g, &params, &[1.0, -2.0, 0.5]);
    params[0].set_grad(4.0f64.to_bits(), &mut g);
    params[1].set_grad((-1.0f64).to_bits(), &mut g);
    let other = leaf(&mut g, 7.0, "other");
    other.set_grad(ONE, &mut g);
    neuron.update(0.1f64.to_bits(), &mut g);
    assert_eq!(data(&g, params[0]), 1.0 - 0.1 * 4.0);
    assert_eq!(data(&g, params[1]), -2.0 - 0.1 * -1.0);
    assert_eq!(data(&g, params[2]), 0.5 - 0.1 * 0.0);
    assert_eq!(grad(&g, params[0]), 4.0);
    assert_eq!(data(&g, other), 7.0);
}

#[test]
fn stale_gradients_corrupt_the_next_step() {
    let mut g = Graph::new(unit);
    let neuron = Neuron::new(1, false, &mut g, &uniform);
    let params = neuron.parameters();
    set(&mut g, &params, &[1.0, 0.0]);
    let x = vec![leaf(&mut g, 3.0, "x0")];
    let first = neuron.forward(&x, &mut g);
    first.backward(&mut g);
    assert_eq!(grad(&g, params[0]), 3.0);
    let second = neuron.forward(&x, &mut g);
    second.backward(&mut g);
    assert_eq!(grad(&g, params[0]), 6.0);
    neuron.zero_grad(&mut g);
    let third = neuron.forward(&x, &mut g);
    third.backward(&mut g);
    assert_eq!(grad(&g, params[0]), 3.0);
}

#[test]
fn training_example_makes_labelled_leaves() {
    let mut g = Graph::new(unit);
    let (x, y) = training_example(&[0.0f64.to_bits(), 1.0f64.to_bits()], 1.0f64.to_bits(), &mut g);
    assert_eq!(x.len(), 2);
    assert_eq!(g.len(), 3);
    assert_eq!(x[0].label(&g), "x0");
    assert_eq!(x[1].label(&g), "x1");
    assert_eq!(y.label(&g), "y");
    assert_eq!(data(&g, x[0]), 0.0);
    assert_eq!(data(&g, x[1]), 1.0);
    assert_eq!(data(&g, y), 1.0);
    assert_eq!(y.id, 2);
    assert_eq!(y.grad(&g), ZERO);
    let (none, target) = training_example(&[], 5.0f64.to_bits(), &mut g);
    assert!(none.is_empty());
    assert_eq!(data(&g, target), 5.0);
}

#[test]
fn train_step_is_forward_loss_reset_backward_update() {
    let mut stepped = Graph::new(unit);
    let mut manual = Graph::new(unit);
    let weights = [0.3, -0.2, 0.1, 0.7, 0.5, -0.4, 0.2, -0.6, 0.9];
    let rate = 0.1f64.to_bits();

    let first = MLP::new(2, &[2, 1], &mut stepped, &uniform);
    set(&mut stepped, &first.parameters(), &weights);
    let (x, y) = training_example(&[1.0f64.to_bits(), 0.5f64.to_bits()], 1.0f64.to_bits(), &mut stepped);
    let loss = first.train_step(x, &y, rate, &mut stepped);

    let second = MLP::new(2, &[2, 1], &mut manual, &uniform);
    set(&mut manual, &second.parameters(), &weights);
    let (x, y) = training_example(&[1.0f64.to_bits(), 0.5f64.to_bits()], 1.0f64.to_bits(), &mut manual);
    let prediction = second.forward(x, &mut manual)[0];
    let error = prediction.sub(&y, &mut manual);
    let expected = error.pow(2.0f64.to_bits(), &mut manual);
    second.zero_grad(&mut manual);
    expected.backward(&mut manual);
    second.update(rate, &mut manual);

    assert_eq!(loss, expected);
    assert_eq!(stepped.len(), manual.len());
    for id in 0..stepped.len() {
        let node = Value { id };
        assert_eq!(node.data(&stepped), node.data(&manual));
        assert_eq!(node.grad(&stepped), node.grad(&manual));
        assert_eq!(node.label(&stepped), node.label(&manual));
        assert_eq!(node.op(&stepped), node.op(&manual));
        assert_eq!(node.prev(&stepped), node.prev(&manual));
    }
    assert_eq!(loss.id, stepped.len() - 1);
    assert_eq!(loss.op(&stepped), "pow");
    assert_eq!(loss.grad(&stepped), ONE);
}

#[test]
fn train_step_gives_the_squared_error_and_lowers_it() {
    let mut g = Graph::new(unit);
    let mlp = MLP::new(1, &[1], &mut g, &uniform);
    set(&mut g, &mlp.parameters(), &[0.5, 0.0]);
    let (x, y) = training_example(&[2.0f64.to_bits()], 3.0f64.to_bits(), &mut g);
    let first = mlp.train_step(x.clone(), &y, 0.05f64.to_bits(), &mut g);
    assert_eq!(data(&g, first), 4.0);
    let params = mlp.parameters();
    assert_eq!(grad(&g, params[0]), 2.0 * -2.0 * 2.0);
    assert_eq!(grad(&g, params[1]), 2.0 * -2.0);
    assert_eq!(data(&g, params[0]), 0.5 - 0.05 * -8.0);
    assert_eq!(data(&g, params[1]), 0.0 - 0.05 * -4.0);
    let second = mlp.train_step(x, &y, 0.05f64.to_bits(), &mut g);
    assert!(data(&g, second) < data(&g, first));
}

fn train_exclusive_or() -> (f64, f64, usize) {
    let mut g = Graph::new(unit);
    let rows: [([f64; 2], f64); 4] =
        [([0.0, 0.0], 0.0), ([0.0, 1.0], 1.0), ([1.0, 0.0], 1.0), ([1.0, 1.0], 0.0)];
    let mut examples = Vec::new();
    for (inputs, target) in rows.iter() {
        let bits = [inputs[0].to_bits(), inputs[1].to_bits()];
        examples.push(training_example(&bits, target.to_bits(), &mut g));
    }
    let model = MLP::new(2, &[4, 1], &mut g, &uniform);
    let mut losses = Vec::new();
    for _ in 0..100 {
        let mut epoch = 0.0;
        for (x, y) in examples.iter() {
            let loss = model.train_step(x.clone(), y, 0.1f64.to_bits(), &mut g);
            epoch += data(&g, loss);
        }
        losses.push(epoch / 4.0);
    }
    let mut right = 0;
    for (x, y) in examples.iter() {
        let prediction = model.forward(x.clone(), &mut g)[0];
        if (data(&g, prediction) - data(&g, *y)).abs() < 0.5 {
            right += 1;
        }
    }
    (losses[0], losses[99], right)
}

#[test]
fn training_on_exclusive_or_converges() {
    let mut converged = false;
    for _ in 0..50 {
        let (first, last, right) = train_exclusive_or();
        if last < first && right >= 3 {
            converged = true;
            break;
        }
    }
    assert!(converged);
}

#[test]
fn training_goes_on_after_the_steps_nodes_are_released() {
    let mut kept = Graph::new(unit);
    let mut released = Graph::new(unit);
    let weights = [0.3, -0.2, 0.1, 0.7, 0.5, -0.4, 0.2, -0.6, 0.9];
    let rate = 0.1f64.to_bits();
    let mut parameters = Vec::new();
    for (g, release) in [(&mut kept, false), (&mut released, true)] {
        let model = MLP::new(2, &[2, 1], g, &uniform);
        set(g, &model.parameters(), &weights);
        let (x, y) = training_example(&[1.0f64.to_bits(), 0.5f64.to_bits()], 1.0f64.to_bits(), g);
        for _ in 0..5 {
            let mark = g.len();
            let _ = model.train_step(x.clone(), &y, rate, g);
            if release {
                g.truncate(mark);
            }
        }
        parameters.push(model.parameters());
    }
    assert_eq!(released.len(), 9 + 3);
    assert_eq!(kept.len(), 9 + 3 + 5 * 16);
    for (p, q) in parameters[0].iter().zip(parameters[1].iter()) {
        assert_eq!(p.data(&kept), q.data(&released));
        assert_eq!(p.grad(&kept), q.grad(&released));
    }
}
