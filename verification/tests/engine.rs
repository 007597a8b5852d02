use autograd::engine::Value;
use autograd::graph::{Graph, Op};
use autograd::scalar::{is_positive, Prim, ONE, TWO, ZERO};

fn unit(p: Prim, a: u64, b: u64) -> u64 {
    let x = f64::from_bits(a);
    let y = f64::from_bits(b);
    let r = match p {
        Prim::Add => x + y,
        Prim::Sub => x - y,
        Prim::Mul => x * y,
        Prim::Div => x / y,
        Prim::Neg => -x,
        Prim::Exp => x.exp(),
        Prim::Powf => x.powf(y),
    };
    r.to_bits()
}

fn leaf<F: Fn(Prim, u64, u64) -> u64>(g: &mut Graph<F>, v: f64, label: &str) -> Value {
    Value::new(v.to_bits(), label.to_string(), g)
}

fn data<F: Fn(Prim, u64, u64) -> u64>(g: &Graph<F>, v: Value) -> f64 {
    f64::from_bits(v.data(g))
}

fn grad<F: Fn(Prim, u64, u64) -> u64>(g: &Graph<F>, v: Value) -> f64 {
    f64::from_bits(v.grad(g))
}

#[test]
fn constants_are_the_patterns_of_zero_one_and_two() {
    assert_eq!(ZERO, 0.0f64.to_bits());
    assert_eq!(ONE, 1.0f64.to_bits());
    assert_eq!(TWO, 2.0f64.to_bits());
}

#[test]
fn positive_agrees_with_float_comparison() {
    let samples = [
        0.0f64,
        -0.0,
        1.0,
        -1.0,
        f64::MIN_POSITIVE,
        5e-324,
        -5e-324,
        f64::MAX,
        f64::MIN,
        f64::INFINITY,
        f64::NEG_INFINITY,
        f64::NAN,
        -f64::NAN,
        0.5,
        2.0,
    ];
    for x in samples {
        assert_eq!(is_positive(x.to_bits()), x > 0.0);
    }
    assert!(!is_positive(u64::MAX));
    assert!(!is_positive(0x7FF0_0000_0000_0001));
    assert!(is_positive(0x7FF0_0000_0000_0000));
    assert!(is_positive(1));
}

#[test]
fn leaf_has_value_label_and_zero_gradient() {
    let mut g = Graph::new(unit);
    let a = leaf(&mut g, 2.5, "a");
    assert_eq!(data(&g, a), 2.5);
    assert_eq!(grad(&g, a), 0.0);
    assert_eq!(a.grad(&g), ZERO);
    assert_eq!(a.label(&g), "a");
    assert_eq!(a.op(&g), "");
    assert!(a.prev(&g).is_empty());
    assert_eq!(g.len(), 1);
}

#[test]
fn empty_graph_has_no_nodes() {
    let g = Graph::new(unit);
    assert_eq!(g.len(), 0);
}

#[test]
fn handles_count_up_from_zero() {
    let mut g = Graph::new(unit);
    let a = leaf(&mut g, 1.0, "a");
    let b = leaf(&mut g, 1.0, "b");
    let c = a.add(&b, &mut g);
    assert_eq!(a.id, 0);
    assert_eq!(b.id, 1);
    assert_eq!(c.id, 2);
    assert_eq!(g.len(), 3);
}

#[test]
fn binary_operators_compute_the_direct_result() {
    let mut g = Graph::new(unit);
    let a = leaf(&mut g, 2.0, "a");
    let b = leaf(&mut g, 3.0, "b");
    let sum = a.add(&b, &mut g);
    let difference = a.sub(&b, &mut g);
    let product = a.mul(&b, &mut g);
    let quotient = a.div(&b, &mut g);
    assert_eq!(data(&g, sum), 5.0);
    assert_eq!(data(&g, difference), -1.0);
    assert_eq!(data(&g, product), 6.0);
    assert_eq!(data(&g, quotient), 2.0 / 3.0);
}

#[test]
fn binary_operators_agree_with_arithmetic_on_many_pairs() {
    let values = [0.0, -0.0, 1.0, -1.5, 2.25, 1e300, -1e-300, 7.0, 0.1, 1e-5];
    for &x in values.iter() {
        for &y in values.iter() {
            let mut g = Graph::new(unit);
            let a = leaf(&mut g, x, "a");
            let b = leaf(&mut g, y, "b");
            let sum = a.add(&b, &mut g);
            let difference = a.sub(&b, &mut g);
            let product = a.mul(&b, &mut g);
            let quotient = a.div(&b, &mut g);
            assert_eq!(sum.data(&g), (x + y).to_bits());
            assert_eq!(difference.data(&g), (x - y).to_bits());
            assert_eq!(product.data(&g), (x * y).to_bits());
            assert_eq!(quotient.data(&g), (x / y).to_bits());
        }
    }
}

#[test]
fn derived_node_records_operation_and_operands() {
    let mut g = Graph::new(unit);
    let a = leaf(&mut g, 2.0, "a");
    let b = leaf(&mut g, 3.0, "b");
    let product = a.mul(&b, &mut g);
    assert_eq!(product.op(&g), "*");
    assert_eq!(product.prev(&g), vec![a, b]);
    assert_eq!(grad(&g, product), 0.0);
    let difference = b.sub(&a, &mut g);
    assert_eq!(difference.op(&g), "-");
    assert_eq!(difference.prev(&g), vec![b, a]);
    let sum = a.add(&b, &mut g);
    assert_eq!(sum.op(&g), "+");
    let quotient = a.div(&b, &mut g);
    assert_eq!(quotient.op(&g), "/");
}

#[test]
fn operators_leave_older_nodes_as_they_were() {
    let mut g = Graph::new(unit);
    let a = leaf(&mut g, 2.0, "a");
    let b = leaf(&mut g, 3.0, "b");
    a.set_grad(7.0f64.to_bits(), &mut g);
    let _ = a.mul(&b, &mut g);
    assert_eq!(data(&g, a), 2.0);
    assert_eq!(grad(&g, a), 7.0);
    assert_eq!(a.label(&g), "a");
    assert_eq!(data(&g, b), 3.0);
    assert_eq!(b.label(&g), "b");
}

#[test]
fn shared_operand_is_the_same_node_twice() {
    let mut g = Graph::new(unit);
    let a = leaf(&mut g, 4.0, "a");
    let b = a.add(&a, &mut g);
    assert_eq!(data(&g, b), 8.0);
    assert_eq!(b.prev(&g), vec![a, a]);
    assert_eq!(g.len(), 2);
}

#[test]
fn equal_contents_are_still_two_nodes() {
    let mut g = Graph::new(unit);
    let first = leaf(&mut g, 0.0, "w");
    let second = leaf(&mut g, 0.0, "w");
    assert_ne!(first, second);
    first.set_grad(ONE, &mut g);
    assert_eq!(grad(&g, first), 1.0);
    assert_eq!(grad(&g, second), 0.0);
}

#[test]
fn labels_are_derived_from_operands() {
    let mut g = Graph::new(unit);
    let a = leaf(&mut g, 2.0, "a");
    let b = leaf(&mut g, 3.0, "b");
    let sum = a.add(&b, &mut g);
    assert_eq!(sum.label(&g), "(a_+_b");
    let difference = a.sub(&b, &mut g);
    assert_eq!(difference.label(&g), "(a_-_b");
    let product = a.mul(&b, &mut g);
    assert_eq!(product.label(&g), "(a_*_b");
    let quotient = a.div(&b, &mut g);
    assert_eq!(quotient.label(&g), "(a_/_b");
    let squashed = a.tanh(&mut g);
    assert_eq!(squashed.label(&g), "tanh(a)");
    let rectified = a.relu(&mut g);
    assert_eq!(rectified.label(&g), "relu(a)");
    let raised = a.pow(TWO, &mut g);
    assert_eq!(raised.label(&g), "pow(a)");
    let nested = sum.mul(&squashed, &mut g);
    assert_eq!(nested.label(&g), "((a_+_b_*_tanh(a)");
}

#[test]
fn relabelling_replaces_the_label_only() {
    let mut g = Graph::new(unit);
    let a = leaf(&mut g, 2.0, "a");
    let b = leaf(&mut g, 3.0, "b");
    let product = a.mul(&b, &mut g);
    product.set_label("a*b".to_string(), &mut g);
    assert_eq!(product.label(&g), "a*b");
    assert_eq!(data(&g, product), 6.0);
    assert_eq!(product.op(&g), "*");
    assert_eq!(product.prev(&g), vec![a, b]);
    let sum = product.add(&a, &mut g);
    assert_eq!(sum.label(&g), "(a*b_+_a");
}

#[test]
fn empty_label_is_kept() {
    let mut g = Graph::new(unit);
    let a = leaf(&mut g, 2.0, "");
    let t = a.tanh(&mut g);
    assert_eq!(a.label(&g), "");
    assert_eq!(t.label(&g), "tanh()");
}

#[test]
fn tanh_is_the_quotient_of_exponentials() {
    for &x in [0.0f64, 0.5, -0.5, 2.0, -3.0, 0.8813735870195432].iter() {
        let mut g = Graph::new(unit);
        let a = leaf(&mut g, x, "a");
        let t = a.tanh(&mut g);
        let expected = (x.exp() - (-x).exp()) / (x.exp() + (-x).exp());
        assert_eq!(t.data(&g), expected.to_bits());
        assert!((data(&g, t) - x.tanh()).abs() < 1e-12);
        assert_eq!(t.op(&g), "tanh");
        assert_eq!(t.prev(&g), vec![a]);
    }
}

#[test]
fn tanh_of_a_large_value_is_not_a_number() {
    let mut g = Graph::new(unit);
    let a = leaf(&mut g, 1000.0, "a");
    let t = a.tanh(&mut g);
    assert!(data(&g, t).is_nan());
}

#[test]
fn pow_raises_to_the_exponent() {
    let mut g = Graph::new(unit);
    let a = leaf(&mut g, 3.0, "a");
    let square = a.pow(TWO, &mut g);
    assert_eq!(data(&g, square), 9.0);
    let root = a.pow(0.5f64.to_bits(), &mut g);
    assert_eq!(root.data(&g), 3.0f64.powf(0.5).to_bits());
    let inverse = a.pow((-1.0f64).to_bits(), &mut g);
    assert_eq!(inverse.data(&g), 3.0f64.powf(-1.0).to_bits());
    assert_eq!(square.op(&g), "pow");
    assert_eq!(square.prev(&g), vec![a]);
}

#[test]
fn zero_to_a_negative_power_is_infinite() {
    let mut g = Graph::new(unit);
    let a = leaf(&mut g, 0.0, "a");
    let p = a.pow((-1.0f64).to_bits(), &mut g);
    assert_eq!(data(&g, p), f64::INFINITY);
}

#[test]
fn relu_keeps_positive_values_and_zeroes_the_rest() {
    let cases = [
        (2.0f64, 2.0f64),
        (0.0, 0.0),
        (-0.0, 0.0),
        (-1.0, 0.0),
        (f64::INFINITY, f64::INFINITY),
        (f64::NEG_INFINITY, 0.0),
        (f64::NAN, 0.0),
        (5e-324, 5e-324),
    ];
    for &(x, expected) in cases.iter() {
        let mut g = Graph::new(unit);
        let a = leaf(&mut g, x, "a");
        let r = a.relu(&mut g);
        assert_eq!(r.data(&g), expected.to_bits());
        assert_eq!(r.op(&g), "relu");
        assert_eq!(r.prev(&g), vec![a]);
    }
}

#[test]
fn division_by_zero_is_not_trapped() {
    let mut g = Graph::new(unit);
    let a = leaf(&mut g, 1.0, "a");
    let zero = leaf(&mut g, 0.0, "zero");
    let q = a.div(&zero, &mut g);
    assert_eq!(data(&g, q), f64::INFINITY);
    let undefined = zero.div(&zero, &mut g);
    assert!(data(&g, undefined).is_nan());
    let carried = undefined.add(&a, &mut g);
    assert!(data(&g, carried).is_nan());
}

#[test]
fn apply_takes_any_operation() {
    let mut g = Graph::new(unit);
    let a = leaf(&mut g, 2.0, "a");
    let b = leaf(&mut g, 3.0, "b");
    let product = Value::apply(Op::Mul, &[a, b], &mut g);
    assert_eq!(data(&g, product), 6.0);
    let sum = Value::apply(Op::Add, &[a, b], &mut g);
    assert_eq!(data(&g, sum), 5.0);
    let difference = Value::apply(Op::Sub, &[a, b], &mut g);
    assert_eq!(data(&g, difference), -1.0);
    let quotient = Value::apply(Op::Div, &[b, a], &mut g);
    assert_eq!(data(&g, quotient), 1.5);
    let cube = Value::apply(Op::Pow(3.0f64.to_bits()), &[a], &mut g);
    assert_eq!(cube.data(&g), 2.0f64.powf(3.0).to_bits());
    let squashed = Value::apply(Op::Tanh, &[a], &mut g);
    assert_eq!(squashed.data(&g), a.tanh(&mut g).data(&g));
    let negative = leaf(&mut g, -2.0, "n");
    let rectified = Value::apply(Op::Relu, &[negative], &mut g);
    assert_eq!(data(&g, rectified), 0.0);
    assert_eq!(product.prev(&g), vec![a, b]);
    assert_eq!(product.label(&g), "(a_*_b");
    assert_eq!(cube.prev(&g), vec![a]);
}

#[test]
fn values_and_gradients_can_be_overwritten() {
    let mut g = Graph::new(unit);
    let a = leaf(&mut g, 2.0, "a");
    let b = a.add(&a, &mut g);
    a.set_data(5.0f64.to_bits(), &mut g);
    a.set_grad(0.25f64.to_bits(), &mut g);
    assert_eq!(data(&g, a), 5.0);
    assert_eq!(grad(&g, a), 0.25);
    assert_eq!(data(&g, b), 4.0);
    assert_eq!(grad(&g, b), 0.0);
    let c = a.add(&a, &mut g);
    assert_eq!(data(&g, c), 10.0);
}

#[test]
fn unit_is_asked_for_each_primitive() {
    let swapped = |p: Prim, a: u64, b: u64| -> u64 {
        match p {
            Prim::Add => 11,
            Prim::Sub => 12,
            Prim::Mul => 13,
            Prim::Div => 14,
            Prim::Neg => 15,
            Prim::Exp => 16,
            Prim::Powf => a.wrapping_add(b),
        }
    };
    let mut g = Graph::new(swapped);
    let a = Value::new(100, "a".to_string(), &mut g);
    let b = Value::new(200, "b".to_string(), &mut g);
    assert_eq!(a.add(&b, &mut g).data(&g), 11);
    assert_eq!(a.sub(&b, &mut g).data(&g), 12);
    assert_eq!(a.mul(&b, &mut g).data(&g), 13);
    assert_eq!(a.div(&b, &mut g).data(&g), 14);
    assert_eq!(a.tanh(&mut g).data(&g), 14);
    assert_eq!(a.pow(5, &mut g).data(&g), 105);
    assert_eq!(a.relu(&mut g).data(&g), 100);
}

#[test]
fn truncate_releases_the_youngest_nodes() {
    let mut g = Graph::new(unit);
    let a = leaf(&mut g, 2.0, "a");
    let b = leaf(&mut g, 3.0, "b");
    a.set_grad(ONE, &mut g);
    let mark = g.len();
    let c = a.mul(&b, &mut g);
    let _ = c.tanh(&mut g);
    assert_eq!(g.len(), 4);
    g.truncate(mark);
    assert_eq!(g.len(), 2);
    assert_eq!(data(&g, a), 2.0);
    assert_eq!(grad(&g, a), 1.0);
    assert_eq!(b.label(&g), "b");
    let again = a.add(&b, &mut g);
    assert_eq!(again.id, 2);
    assert_eq!(data(&g, again), 5.0);
    assert_eq!(again.label(&g), "(a_+_b");
    assert_eq!(again.prev(&g), vec![a, b]);
}

#[test]
fn truncate_past_the_end_releases_nothing() {
    let mut g = Graph::new(unit);
    let a = leaf(&mut g, 2.0, "a");
    g.truncate(5);
    assert_eq!(g.len(), 1);
    g.truncate(1);
    assert_eq!(g.len(), 1);
    assert_eq!(data(&g, a), 2.0);
    g.truncate(0);
    assert_eq!(g.len(), 0);
}
