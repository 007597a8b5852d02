//! The text that names an operation, and the label given to a derived node.

use vstd::prelude::*;
use crate::graph::Op;

verus! {

/// The symbol of an operation; a leaf has none.
pub open spec fn op_symbol(op: Op) -> Seq<char> {
    match op {
        Op::Leaf => ""@,
        Op::Add => "+"@,
        Op::Sub => "-"@,
        Op::Mul => "*"@,
        Op::Div => "/"@,
        Op::Pow(_) => "pow"@,
        Op::Tanh => "tanh"@,
        Op::Relu => "relu"@,
    }
}

/// The label of the node that a binary operation derives: an opening
/// bracket, then the left label, the symbol and the right label, joined by
/// underscores.
pub open spec fn binary_label(left: Seq<char>, op: Op, right: Seq<char>) -> Seq<char> {
    "("@ + left + "_"@ + op_symbol(op) + "_"@ + right
}

/// The label of the node that a unary operation derives: the symbol, then
/// the operand's label in brackets.
pub open spec fn unary_label(op: Op, inner: Seq<char>) -> Seq<char> {
    op_symbol(op) + "("@ + inner + ")"@
}

/// The symbol of an operation, as text.
pub fn symbol(op: Op) -> (s: String)
    ensures
        s@ == op_symbol(op),
{
    match op {
        Op::Leaf => String::from_str(""),
        Op::Add => String::from_str("+"),
        Op::Sub => String::from_str("-"),
        Op::Mul => String::from_str("*"),
        Op::Div => String::from_str("/"),
        Op::Pow(_) => String::from_str("pow"),
        Op::Tanh => String::from_str("tanh"),
        Op::Relu => String::from_str("relu"),
    }
}

/// Builds the label of a binary operation's result.
pub fn binary_text(left: &String, op: Op, right: &String) -> (s: String)
    ensures
        s@ == binary_label(left@, op, right@),
{
    let mut s = String::from_str("(");
    s.append(left.as_str());
    s.append("_");
    let sym = symbol(op);
    s.append(sym.as_str());
    s.append("_");
    s.append(right.as_str());
    s
}

/// Builds the label of a unary operation's result.
pub fn unary_text(op: Op, inner: &String) -> (s: String)
    ensures
        s@ == unary_label(op, inner@),
{
    let mut s = symbol(op);
    s.append("(");
    s.append(inner.as_str());
    s.append(")");
    s
}

/// The text of one decimal digit.
pub open spec fn digit(d: nat) -> Seq<char> {
    if d == 0 {
        "0"@
    } else if d == 1 {
        "1"@
    } else if d == 2 {
        "2"@
    } else if d == 3 {
        "3"@
    } else if d == 4 {
        "4"@
    } else if d == 5 {
        "5"@
    } else if d == 6 {
        "6"@
    } else if d == 7 {
        "7"@
    } else if d == 8 {
        "8"@
    } else {
        "9"@
    }
}

/// The decimal text of a number, without leading zeros.
pub open spec fn decimal(n: nat) -> Seq<char>
    decreases n,
{
    if n < 10 {
        digit(n)
    } else {
        decimal(n / 10) + digit(n % 10)
    }
}

/// The label of the `i`-th item of a family: the family's name, then the
/// index in decimal.
pub open spec fn indexed_label(family: Seq<char>, i: nat) -> Seq<char> {
    family + decimal(i)
}

fn digit_text(d: usize) -> (s: &'static str)
    requires
        d < 10,
    ensures
        s@ == digit(d as nat),
{
    if d == 0 {
        "0"
    } else if d == 1 {
        "1"
    } else if d == 2 {
        "2"
    } else if d == 3 {
        "3"
    } else if d == 4 {
        "4"
    } else if d == 5 {
        "5"
    } else if d == 6 {
        "6"
    } else if d == 7 {
        "7"
    } else if d == 8 {
        "8"
    } else {
        "9"
    }
}

/// Writes a number in decimal.
pub fn decimal_text(n: usize) -> (s: String)
    ensures
        s@ == decimal(n as nat),
    decreases n,
{
    if n < 10 {
        String::from_str(digit_text(n))
    } else {
        let mut s = decimal_text(n / 10);
        s.append(digit_text(n % 10));
        s
    }
}

/// Builds the label of the `i`-th item of a family.
pub fn indexed_text(family: &str, i: usize) -> (s: String)
    ensures
        s@ == indexed_label(family@, i as nat),
{
    let mut s = String::from_str(family);
    let number = decimal_text(i);
    s.append(number.as_str());
    s
}

} // verus!
