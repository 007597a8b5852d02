//! Values: handles to the nodes of a graph, and the operators that derive
//! new nodes from old ones.
//!
//! The forward pass is eager: every operator computes its result at once,
//! appends the node and returns its handle.

use vstd::prelude::*;
use crate::graph::{acyclic, extends, fresh_leaf, grown_by_one, node_ok, Graph, NodeView, Op};
use crate::label::{binary_label, binary_text, op_symbol, symbol, unary_label, unary_text};
use crate::scalar::{gives, is_positive, rectified, Prim, ZERO};

verus! {

/// A handle to one node of a graph. The index is the node's identity: two
/// nodes with equal contents are still two nodes.
#[derive(Clone, Copy, PartialEq, Eq, Structural, Debug)]
pub struct Value {
    pub id: usize,
}

/// The primitive behind a binary operation.
pub open spec fn binary_prim(op: Op) -> Prim {
    match op {
        Op::Sub => Prim::Sub,
        Op::Mul => Prim::Mul,
        Op::Div => Prim::Div,
        _ => Prim::Add,
    }
}

/// `t` is a hyperbolic tangent of `x` as the unit computes it: the quotient
/// of the difference and the sum of the exponentials of `x` and of `-x`.
pub open spec fn tanh_of<F: Fn(Prim, u64, u64) -> u64>(unit: F, x: u64, t: u64) -> bool {
    exists|grown: u64, negated: u64, shrunk: u64, above: u64, below: u64|
        #![trigger
            gives(unit, Prim::Exp, x, ZERO, grown),
            gives(unit, Prim::Exp, negated, ZERO, shrunk),
            gives(unit, Prim::Div, above, below, t),
        ]
        {
            &&& gives(unit, Prim::Exp, x, ZERO, grown)
            &&& gives(unit, Prim::Neg, x, ZERO, negated)
            &&& gives(unit, Prim::Exp, negated, ZERO, shrunk)
            &&& gives(unit, Prim::Sub, grown, shrunk, above)
            &&& gives(unit, Prim::Add, grown, shrunk, below)
            &&& gives(unit, Prim::Div, above, below, t)
        }
}

/// `r` is a value that `op` may give on the operand values `a` and `b`
/// (a unary operation ignores `b`; of a leaf's value nothing is said).
pub open spec fn forward_of<F: Fn(Prim, u64, u64) -> u64>(
    unit: F,
    op: Op,
    a: u64,
    b: u64,
    r: u64,
) -> bool {
    match op {
        Op::Leaf => true,
        Op::Add | Op::Sub | Op::Mul | Op::Div => gives(unit, binary_prim(op), a, b, r),
        Op::Pow(exponent) => gives(unit, Prim::Powf, a, exponent, r),
        Op::Tanh => tanh_of(unit, a, r),
        Op::Relu => r == rectified(a),
    }
}

/// The label that a derived node gets from its operation and its operands.
pub open spec fn derived_label(nodes: Seq<NodeView>, op: Op, operands: Seq<usize>) -> Seq<char> {
    if operands.len() == 2 {
        binary_label(nodes[operands[0] as int].label, op, nodes[operands[1] as int].label)
    } else {
        unary_label(op, nodes[operands[0] as int].label)
    }
}

/// The value of the `k`-th operand, or zero where there is none.
pub open spec fn operand_value(nodes: Seq<NodeView>, operands: Seq<usize>, k: int) -> u64 {
    if 0 <= k < operands.len() {
        nodes[operands[k] as int].value
    } else {
        ZERO
    }
}

/// Node `n` is as the operator that made it left it: it is no leaf, it has
/// the operands that its operation takes, a zero gradient, the label derived
/// from its operands' labels and a value that its operation gives on their
/// values.
pub open spec fn derived<F: Fn(Prim, u64, u64) -> u64>(
    unit: F,
    nodes: Seq<NodeView>,
    n: int,
) -> bool {
    let op = nodes[n].op;
    let operands = nodes[n].operands;
    &&& op != Op::Leaf
    &&& operands.len() == op.arity()
    &&& nodes[n].grad == ZERO
    &&& nodes[n].label == derived_label(nodes, op, operands)
    &&& forward_of(
        unit,
        op,
        operand_value(nodes, operands, 0),
        operand_value(nodes, operands, 1),
        nodes[n].value,
    )
}

/// Node `n` is the derived node of the binary operation `op` on nodes `a`
/// and `b`, in that order.
pub open spec fn joins<F: Fn(Prim, u64, u64) -> u64>(
    unit: F,
    nodes: Seq<NodeView>,
    n: int,
    op: Op,
    a: int,
    b: int,
) -> bool {
    &&& derived(unit, nodes, n)
    &&& nodes[n].op == op
    &&& op.arity() == 2
    &&& nodes[n].operands[0] == a
    &&& nodes[n].operands[1] == b
}

/// Node `n` is the derived node of the unary operation `op` on node `a`.
pub open spec fn wraps<F: Fn(Prim, u64, u64) -> u64>(
    unit: F,
    nodes: Seq<NodeView>,
    n: int,
    op: Op,
    a: int,
) -> bool {
    &&& derived(unit, nodes, n)
    &&& nodes[n].op == op
    &&& op.arity() == 1
    &&& nodes[n].operands[0] == a
}

/// A derived node stays what it is when the graph grows.
pub proof fn lemma_derived_stays<F: Fn(Prim, u64, u64) -> u64>(
    unit: F,
    before: Seq<NodeView>,
    after: Seq<NodeView>,
    n: int,
)
    requires
        acyclic(before),
        extends(before, after),
        0 <= n < before.len(),
        derived(unit, before, n),
    ensures
        derived(unit, after, n),
{
    assert(node_ok(before, n));
}

/// Every handle of `handles` names a node of the graph.
pub open spec fn all_within(handles: Seq<Value>, nodes: Seq<NodeView>) -> bool {
    forall|k: int| 0 <= k < handles.len() ==> (#[trigger] handles[k]).id < nodes.len()
}

impl Value {
    /// The handle names a node of the graph.
    pub open spec fn within<F: Fn(Prim, u64, u64) -> u64>(self, g: &Graph<F>) -> bool {
        self.id < g@.len()
    }

    /// Makes a leaf: a node without operands, with the given value and label
    /// and a zero gradient.
    pub fn new<F: Fn(Prim, u64, u64) -> u64>(
        data: u64,
        label: String,
        g: &mut Graph<F>,
    ) -> (v: Value)
        requires
            old(g).wf(),
        ensures
            final(g).wf(),
            final(g).unit() == old(g).unit(),
            v.id == old(g)@.len(),
            grown_by_one(old(g)@, final(g)@),
            fresh_leaf(final(g)@, v.id as int, label@),
            final(g)@[v.id as int].value == data,
    {
        let id = g.push(data, Op::Leaf, 0, 0, label);
        Value { id }
    }

    /// The node's value.
    pub fn data<F: Fn(Prim, u64, u64) -> u64>(&self, g: &Graph<F>) -> (r: u64)
        requires
            g.wf(),
            self.within(g),
        ensures
            r == g@[self.id as int].value,
    {
        g.value_at(self.id)
    }

    /// Overwrites the node's value. Nodes derived from it keep the values
    /// they were given when they were made.
    pub fn set_data<F: Fn(Prim, u64, u64) -> u64>(&self, data: u64, g: &mut Graph<F>)
        requires
            old(g).wf(),
            self.within(old(g)),
        ensures
            final(g).wf(),
            final(g).unit() == old(g).unit(),
            final(g)@ == old(g)@.update(
                self.id as int,
                NodeView { value: data, ..old(g)@[self.id as int] },
            ),
    {
        g.set_value_at(self.id, data);
    }

    /// A copy of the node's label.
    pub fn label<F: Fn(Prim, u64, u64) -> u64>(&self, g: &Graph<F>) -> (r: String)
        requires
            g.wf(),
            self.within(g),
        ensures
            r@ == g@[self.id as int].label,
    {
        g.label_at(self.id)
    }

    /// The symbol of the operation that produced the node; empty for a leaf.
    pub fn op<F: Fn(Prim, u64, u64) -> u64>(&self, g: &Graph<F>) -> (r: String)
        requires
            g.wf(),
            self.within(g),
        ensures
            r@ == op_symbol(g@[self.id as int].op),
    {
        symbol(g.op_at(self.id))
    }

    /// The node's accumulated gradient.
    pub fn grad<F: Fn(Prim, u64, u64) -> u64>(&self, g: &Graph<F>) -> (r: u64)
        requires
            g.wf(),
            self.within(g),
        ensures
            r == g@[self.id as int].grad,
    {
        g.grad_at(self.id)
    }

    /// Overwrites the node's gradient.
    pub fn set_grad<F: Fn(Prim, u64, u64) -> u64>(&self, grad: u64, g: &mut Graph<F>)
        requires
            old(g).wf(),
            self.within(old(g)),
        ensures
            final(g).wf(),
            final(g).unit() == old(g).unit(),
            final(g)@ == old(g)@.update(
                self.id as int,
                NodeView { grad, ..old(g)@[self.id as int] },
            ),
    {
        g.set_grad_at(self.id, grad);
    }

    /// The node's operands, in order, as handles to the very nodes.
    pub fn prev<F: Fn(Prim, u64, u64) -> u64>(&self, g: &Graph<F>) -> (r: Vec<Value>)
        requires
            g.wf(),
            self.within(g),
        ensures
            r@.len() == g@[self.id as int].operands.len(),
            forall|k: int|
                0 <= k < r@.len() ==> (#[trigger] r@[k]).id == g@[self.id as int].operands[k],
            forall|k: int| 0 <= k < r@.len() ==> (#[trigger] r@[k]).id < self.id,
    {
        let op = g.op_at(self.id);
        let mut r: Vec<Value> = Vec::new();
        proof {
            assert(crate::graph::node_ok(g@, self.id as int));
        }
        match op {
            Op::Leaf => {},
            Op::Pow(_) | Op::Tanh | Op::Relu => {
                r.push(Value { id: g.lhs_at(self.id) });
            },
            Op::Add | Op::Sub | Op::Mul | Op::Div => {
                r.push(Value { id: g.lhs_at(self.id) });
                r.push(Value { id: g.rhs_at(self.id) });
            },
        }
        r
    }

    /// Replaces the node's label.
    pub fn set_label<F: Fn(Prim, u64, u64) -> u64>(&self, label: String, g: &mut Graph<F>)
        requires
            old(g).wf(),
            self.within(old(g)),
        ensures
            final(g).wf(),
            final(g).unit() == old(g).unit(),
            final(g)@ == old(g)@.update(
                self.id as int,
                NodeView { label: label@, ..old(g)@[self.id as int] },
            ),
    {
        g.set_label_at(self.id, label);
    }

    /// Applies a binary operation to two nodes of the graph and appends the
    /// result: a node whose operands are `left` and `right`, in that order.
    fn binary_op<F: Fn(Prim, u64, u64) -> u64>(
        left: &Value,
        right: &Value,
        op: Op,
        g: &mut Graph<F>,
    ) -> (out: Value)
        requires
            old(g).wf(),
            left.within(old(g)),
            right.within(old(g)),
            op.is_binary(),
        ensures
            final(g).wf(),
            final(g).unit() == old(g).unit(),
            out.id == old(g)@.len(),
            grown_by_one(old(g)@, final(g)@),
            joins(final(g).unit(), final(g)@, out.id as int, op, left.id as int, right.id as int),
    {
        let a = g.value_at(left.id);
        let b = g.value_at(right.id);
        let data = match op {
            Op::Add => g.compute(Prim::Add, a, b),
            Op::Sub => g.compute(Prim::Sub, a, b),
            Op::Mul => g.compute(Prim::Mul, a, b),
            Op::Div => g.compute(Prim::Div, a, b),
            _ => unreached(),
        };
        let left_label = g.label_at(left.id);
        let right_label = g.label_at(right.id);
        let label = binary_text(&left_label, op, &right_label);
        let id = g.push(data, op, left.id, right.id, label);
        Value { id }
    }

    /// The sum of two nodes.
    pub fn add<F: Fn(Prim, u64, u64) -> u64>(&self, rhs: &Value, g: &mut Graph<F>) -> (out: Value)
        requires
            old(g).wf(),
            self.within(old(g)),
            rhs.within(old(g)),
        ensures
            final(g).wf(),
            final(g).unit() == old(g).unit(),
            out.id == old(g)@.len(),
            grown_by_one(old(g)@, final(g)@),
            joins(
                final(g).unit(),
                final(g)@,
                out.id as int,
                Op::Add,
                self.id as int,
                rhs.id as int,
            ),
    {
        Value::binary_op(self, rhs, Op::Add, g)
    }

    /// The difference of two nodes.
    pub fn sub<F: Fn(Prim, u64, u64) -> u64>(&self, rhs: &Value, g: &mut Graph<F>) -> (out: Value)
        requires
            old(g).wf(),
            self.within(old(g)),
            rhs.within(old(g)),
        ensures
            final(g).wf(),
            final(g).unit() == old(g).unit(),
            out.id == old(g)@.len(),
            grown_by_one(old(g)@, final(g)@),
            joins(
                final(g).unit(),
                final(g)@,
                out.id as int,
                Op::Sub,
                self.id as int,
                rhs.id as int,
            ),
    {
        Value::binary_op(self, rhs, Op::Sub, g)
    }

    /// The product of two nodes.
    pub fn mul<F: Fn(Prim, u64, u64) -> u64>(&self, rhs: &Value, g: &mut Graph<F>) -> (out: Value)
        requires
            old(g).wf(),
            self.within(old(g)),
            rhs.within(old(g)),
        ensures
            final(g).wf(),
            final(g).unit() == old(g).unit(),
            out.id == old(g)@.len(),
            grown_by_one(old(g)@, final(g)@),
            joins(
                final(g).unit(),
                final(g)@,
                out.id as int,
                Op::Mul,
                self.id as int,
                rhs.id as int,
            ),
    {
        Value::binary_op(self, rhs, Op::Mul, g)
    }

    /// The quotient of two nodes. A zero divisor is not trapped: the unit's
    /// result goes into the node as it comes.
    pub fn div<F: Fn(Prim, u64, u64) -> u64>(&self, rhs: &Value, g: &mut Graph<F>) -> (out: Value)
        requires
            old(g).wf(),
            self.within(old(g)),
            rhs.within(old(g)),
        ensures
            final(g).wf(),
            final(g).unit() == old(g).unit(),
            out.id == old(g)@.len(),
            grown_by_one(old(g)@, final(g)@),
            joins(
                final(g).unit(),
                final(g)@,
                out.id as int,
                Op::Div,
                self.id as int,
                rhs.id as int,
            ),
    {
        Value::binary_op(self, rhs, Op::Div, g)
    }

    /// Applies a unary operation whose value the caller has computed, and
    /// appends the result.
    fn unary_op<F: Fn(Prim, u64, u64) -> u64>(
        &self,
        op: Op,
        data: u64,
        g: &mut Graph<F>,
    ) -> (out: Value)
        requires
            old(g).wf(),
            self.within(old(g)),
            op.arity() == 1,
            forward_of(old(g).unit(), op, old(g)@[self.id as int].value, ZERO, data),
        ensures
            final(g).wf(),
            final(g).unit() == old(g).unit(),
            out.id == old(g)@.len(),
            grown_by_one(old(g)@, final(g)@),
            wraps(final(g).unit(), final(g)@, out.id as int, op, self.id as int),
    {
        let inner = g.label_at(self.id);
        let label = unary_text(op, &inner);
        let id = g.push(data, op, self.id, 0, label);
        Value { id }
    }

    /// Applies an operation to its operands and appends the result. The
    /// operation is none of a leaf, and takes exactly the operands given.
    pub fn apply<F: Fn(Prim, u64, u64) -> u64>(
        op: Op,
        operands: &[Value],
        g: &mut Graph<F>,
    ) -> (out: Value)
        requires
            old(g).wf(),
            op != Op::Leaf,
            operands@.len() == op.arity(),
            forall|k: int| 0 <= k < operands@.len() ==> (#[trigger] operands@[k]).within(old(g)),
        ensures
            final(g).wf(),
            final(g).unit() == old(g).unit(),
            out.id == old(g)@.len(),
            grown_by_one(old(g)@, final(g)@),
            derived(final(g).unit(), final(g)@, out.id as int),
            final(g)@[out.id as int].op == op,
            forall|k: int|
                0 <= k < operands@.len() ==> final(g)@[out.id as int].operands[k] == (
                #[trigger] operands@[k]).id,
    {
        match op {
            Op::Leaf => unreached(),
            Op::Add | Op::Sub | Op::Mul | Op::Div => {
                Value::binary_op(&operands[0], &operands[1], op, g)
            },
            Op::Pow(exponent) => operands[0].pow(exponent, g),
            Op::Tanh => operands[0].tanh(g),
            Op::Relu => operands[0].relu(g),
        }
    }

    /// The hyperbolic tangent of a node.
    pub fn tanh<F: Fn(Prim, u64, u64) -> u64>(&self, g: &mut Graph<F>) -> (out: Value)
        requires
            old(g).wf(),
            self.within(old(g)),
        ensures
            final(g).wf(),
            final(g).unit() == old(g).unit(),
            out.id == old(g)@.len(),
            grown_by_one(old(g)@, final(g)@),
            wraps(final(g).unit(), final(g)@, out.id as int, Op::Tanh, self.id as int),
    {
        let x = g.value_at(self.id);
        let grown = g.compute(Prim::Exp, x, ZERO);
        let negated = g.compute(Prim::Neg, x, ZERO);
        let shrunk = g.compute(Prim::Exp, negated, ZERO);
        let above = g.compute(Prim::Sub, grown, shrunk);
        let below = g.compute(Prim::Add, grown, shrunk);
        let t = g.compute(Prim::Div, above, below);
        self.unary_op(Op::Tanh, t, g)
    }

    /// A node raised to a power, the exponent given by its bit pattern.
    pub fn pow<F: Fn(Prim, u64, u64) -> u64>(&self, exponent: u64, g: &mut Graph<F>) -> (out: Value)
        requires
            old(g).wf(),
            self.within(old(g)),
        ensures
            final(g).wf(),
            final(g).unit() == old(g).unit(),
            out.id == old(g)@.len(),
            grown_by_one(old(g)@, final(g)@),
            wraps(final(g).unit(), final(g)@, out.id as int, Op::Pow(exponent), self.id as int),
    {
        let x = g.value_at(self.id);
        let data = g.compute(Prim::Powf, x, exponent);
        self.unary_op(Op::Pow(exponent), data, g)
    }

    /// The rectified-linear value of a node: the node's value where that is
    /// positive, zero elsewhere.
    pub fn relu<F: Fn(Prim, u64, u64) -> u64>(&self, g: &mut Graph<F>) -> (out: Value)
        requires
            old(g).wf(),
            self.within(old(g)),
        ensures
            final(g).wf(),
            final(g).unit() == old(g).unit(),
            out.id == old(g)@.len(),
            grown_by_one(old(g)@, final(g)@),
            wraps(final(g).unit(), final(g)@, out.id as int, Op::Relu, self.id as int),
    {
        let x = g.value_at(self.id);
        let data = if is_positive(x) {
            x
        } else {
            ZERO
        };
        self.unary_op(Op::Relu, data, g)
    }
}

} // verus!
