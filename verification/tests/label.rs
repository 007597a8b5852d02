use autograd::graph::Op;
use autograd::label::{binary_text, decimal_text, indexed_text, symbol, unary_text};

#[test]
fn symbols_of_the_operations() {
    assert_eq!(symbol(Op::Leaf), "");
    assert_eq!(symbol(Op::Add), "+");
    assert_eq!(symbol(Op::Sub), "-");
    assert_eq!(symbol(Op::Mul), "*");
    assert_eq!(symbol(Op::Div), "/");
    assert_eq!(symbol(Op::Pow(0)), "pow");
    assert_eq!(symbol(Op::Tanh), "tanh");
    assert_eq!(symbol(Op::Relu), "relu");
}

#[test]
fn binary_label_joins_with_underscores() {
    let left = "x1".to_string();
    let right = "w1".to_string();
    assert_eq!(binary_text(&left, Op::Mul, &right), "(x1_*_w1");
    assert_eq!(binary_text(&left, Op::Add, &right), "(x1_+_w1");
    assert_eq!(binary_text(&right, Op::Sub, &left), "(w1_-_x1");
    assert_eq!(binary_text(&right, Op::Div, &left), "(w1_/_x1");
    assert_eq!(binary_text(&String::new(), Op::Add, &String::new()), "(_+_");
}

#[test]
fn unary_label_brackets_the_operand() {
    let inner = "n".to_string();
    assert_eq!(unary_text(Op::Tanh, &inner), "tanh(n)");
    assert_eq!(unary_text(Op::Relu, &inner), "relu(n)");
    assert_eq!(unary_text(Op::Pow(7), &inner), "pow(n)");
}

#[test]
fn decimal_text_writes_numbers_without_leading_zeros() {
    assert_eq!(decimal_text(0), "0");
    assert_eq!(decimal_text(7), "7");
    assert_eq!(decimal_text(9), "9");
    assert_eq!(decimal_text(10), "10");
    assert_eq!(decimal_text(42), "42");
    assert_eq!(decimal_text(100), "100");
    assert_eq!(decimal_text(1234567890), "1234567890");
    assert_eq!(decimal_text(usize::MAX), format!("{}", usize::MAX));
}

#[test]
fn decimal_text_agrees_with_formatting() {
    let mut n: usize = 0;
    while n < 2000 {
        assert_eq!(decimal_text(n), format!("{}", n));
        n += 1;
    }
}

#[test]
fn indexed_label_appends_the_index() {
    assert_eq!(indexed_text("w", 0), "w0");
    assert_eq!(indexed_text("w", 12), "w12");
    assert_eq!(indexed_text("x", 3), "x3");
    assert_eq!(indexed_text("", 5), "5");
}
