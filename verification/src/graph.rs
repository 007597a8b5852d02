//! The arena that holds the computation graph.
//!
//! Nodes are appended at the end and released from the end, and a node's
//! operands are always older than the node itself, so the graph is acyclic
//! by construction and a node's index is its identity.

use vstd::prelude::*;
use crate::scalar::{gives, total, Prim, ZERO};

verus! {

/// The operation that produced a node.
#[derive(Clone, Copy, PartialEq, Eq, Structural, Debug)]
pub enum Op {
    /// An input or a parameter: no operands, no gradient rule.
    Leaf,
    Add,
    Sub,
    Mul,
    Div,
    /// Power, with the exponent's bit pattern.
    Pow(u64),
    Tanh,
    Relu,
}

impl Op {
    /// The number of operands that the operation takes.
    pub open spec fn arity(self) -> nat {
        match self {
            Op::Leaf => 0,
            Op::Add | Op::Sub | Op::Mul | Op::Div => 2,
            Op::Pow(_) | Op::Tanh | Op::Relu => 1,
        }
    }

    pub open spec fn is_binary(self) -> bool {
        self.arity() == 2
    }
}

/// What a node is, as a mathematical value.
pub struct NodeView {
    pub value: u64,
    pub grad: u64,
    pub op: Op,
    pub operands: Seq<usize>,
    pub label: Seq<char>,
}

/// The operand list that the two operand slots stand for under `op`.
pub open spec fn operand_list(op: Op, lhs: usize, rhs: usize) -> Seq<usize> {
    if op.arity() == 0 {
        seq![]
    } else if op.arity() == 1 {
        seq![lhs]
    } else {
        seq![lhs, rhs]
    }
}

/// Node `i` has as many operands as its operation takes, each older than `i`.
pub open spec fn node_ok(nodes: Seq<NodeView>, i: int) -> bool {
    &&& nodes[i].operands.len() == nodes[i].op.arity()
    &&& forall|k: int| 0 <= k < nodes[i].operands.len() ==> (#[trigger] nodes[i].operands[k]) < i
}

/// Every node is well formed: the sequence is a directed acyclic graph laid
/// out so that operands precede their consumers.
pub open spec fn acyclic(nodes: Seq<NodeView>) -> bool {
    forall|i: int| 0 <= i < nodes.len() ==> #[trigger] node_ok(nodes, i)
}

/// `after` holds every node of `before`, unchanged, and may hold more.
pub open spec fn extends(before: Seq<NodeView>, after: Seq<NodeView>) -> bool {
    &&& before.len() <= after.len()
    &&& forall|i: int| 0 <= i < before.len() ==> #[trigger] after[i] == before[i]
}

/// `after` is `before` with one node appended.
pub open spec fn grown_by_one(before: Seq<NodeView>, after: Seq<NodeView>) -> bool {
    &&& after.len() == before.len() + 1
    &&& extends(before, after)
}

/// Node `n` is a leaf as it is first made, with the given label: no
/// operands, and a zero gradient.
pub open spec fn fresh_leaf(nodes: Seq<NodeView>, n: int, label: Seq<char>) -> bool {
    &&& nodes[n].op == Op::Leaf
    &&& nodes[n].operands == Seq::<usize>::empty()
    &&& nodes[n].grad == ZERO
    &&& nodes[n].label == label
}

/// The graph: one slot per column for each node, and the arithmetic unit.
pub struct Graph<F> {
    values: Vec<u64>,
    grads: Vec<u64>,
    ops: Vec<Op>,
    lhs: Vec<usize>,
    rhs: Vec<usize>,
    labels: Vec<String>,
    unit: F,
}

impl<F> View for Graph<F> {
    type V = Seq<NodeView>;

    closed spec fn view(&self) -> Seq<NodeView> {
        Seq::new(
            self.values@.len(),
            |i: int|
                NodeView {
                    value: self.values@[i],
                    grad: self.grads@[i],
                    op: self.ops@[i],
                    operands: operand_list(self.ops@[i], self.lhs@[i], self.rhs@[i]),
                    label: self.labels@[i]@,
                },
        )
    }
}

impl<F: Fn(Prim, u64, u64) -> u64> Graph<F> {
    /// The arithmetic unit of the graph.
    pub closed spec fn unit(&self) -> F {
        self.unit
    }

    /// The columns agree in length.
    pub closed spec fn aligned(&self) -> bool {
        &&& self.grads@.len() == self.values@.len()
        &&& self.ops@.len() == self.values@.len()
        &&& self.lhs@.len() == self.values@.len()
        &&& self.rhs@.len() == self.values@.len()
        &&& self.labels@.len() == self.values@.len()
    }

    /// The graph is well formed.
    pub open spec fn wf(&self) -> bool {
        &&& self.aligned()
        &&& total(self.unit())
        &&& acyclic(self@)
    }

    /// An empty graph over the given arithmetic unit.
    pub fn new(unit: F) -> (g: Self)
        requires
            total(unit),
        ensures
            g.wf(),
            g.unit() == unit,
            g@ == Seq::<NodeView>::empty(),
    {
        let g = Graph {
            values: Vec::new(),
            grads: Vec::new(),
            ops: Vec::new(),
            lhs: Vec::new(),
            rhs: Vec::new(),
            labels: Vec::new(),
            unit,
        };
        g
    }

    /// The number of nodes.
    pub fn len(&self) -> (n: usize)
        ensures
            n == self@.len(),
    {
        self.values.len()
    }

    /// Releases the nodes from index `len` on, the youngest ones; with `len`
    /// at or past the number of nodes, none. No node that stays has a
    /// released node for an operand, since operands are older than their
    /// consumers. Handles to released nodes name nothing any more.
    pub fn truncate(&mut self, len: usize)
        requires
            old(self).wf(),
        ensures
            final(self).wf(),
            final(self).unit() == old(self).unit(),
            final(self)@.len() == (if len <= old(self)@.len() {
                len as nat
            } else {
                old(self)@.len()
            }),
            extends(final(self)@, old(self)@),
    {
        self.values.truncate(len);
        self.grads.truncate(len);
        self.ops.truncate(len);
        self.lhs.truncate(len);
        self.rhs.truncate(len);
        self.labels.truncate(len);
        proof {
            let prior = old(self)@;
            assert forall|i: int| 0 <= i < self@.len() implies #[trigger] self@[i] == prior[i] by {}
            assert forall|i: int| 0 <= i < self@.len() implies #[trigger] node_ok(self@, i) by {
                assert(node_ok(old(self)@, i));
            }
        }
    }

    /// Asks the arithmetic unit for one primitive.
    pub(crate) fn compute(&self, p: Prim, a: u64, b: u64) -> (r: u64)
        requires
            self.wf(),
        ensures
            gives(self.unit(), p, a, b, r),
    {
        (self.unit)(p, a, b)
    }

    /// Appends a node with a zero gradient and returns its index.
    pub(crate) fn push(
        &mut self,
        value: u64,
        op: Op,
        lhs: usize,
        rhs: usize,
        label: String,
    ) -> (id: usize)
        requires
            old(self).wf(),
            op.arity() >= 1 ==> lhs < old(self)@.len(),
            op.arity() >= 2 ==> rhs < old(self)@.len(),
        ensures
            final(self).wf(),
            final(self).unit() == old(self).unit(),
            id == old(self)@.len(),
            final(self)@ == old(self)@.push(
                NodeView {
                    value,
                    grad: ZERO,
                    op,
                    operands: operand_list(op, lhs, rhs),
                    label: label@,
                },
            ),
    {
        let id = self.values.len();
        self.values.push(value);
        self.grads.push(ZERO);
        self.ops.push(op);
        self.lhs.push(lhs);
        self.rhs.push(rhs);
        self.labels.push(label);
        proof {
            let node = NodeView {
                value,
                grad: ZERO,
                op,
                operands: operand_list(op, lhs, rhs),
                label: label@,
            };
            assert forall|i: int| 0 <= i < self@.len() implies #[trigger] node_ok(self@, i) by {
                if i < id {
                    assert(node_ok(old(self)@, i));
                }
            }
        }
        id
    }

    /// The value slot of node `i`.
    pub(crate) fn value_at(&self, i: usize) -> (r: u64)
        requires
            self.wf(),
            i < self@.len(),
        ensures
            r == self@[i as int].value,
    {
        self.values[i]
    }

    /// The gradient slot of node `i`.
    pub(crate) fn grad_at(&self, i: usize) -> (r: u64)
        requires
            self.wf(),
            i < self@.len(),
        ensures
            r == self@[i as int].grad,
    {
        self.grads[i]
    }

    /// The operation of node `i`.
    pub(crate) fn op_at(&self, i: usize) -> (r: Op)
        requires
            self.wf(),
            i < self@.len(),
        ensures
            r == self@[i as int].op,
    {
        self.ops[i]
    }

    /// The first operand of node `i`, which has at least one.
    pub(crate) fn lhs_at(&self, i: usize) -> (r: usize)
        requires
            self.wf(),
            i < self@.len(),
            self@[i as int].op.arity() >= 1,
        ensures
            r == self@[i as int].operands[0],
            r < i,
    {
        assert(node_ok(self@, i as int));
        assert(self@[i as int].operands[0] == self.lhs@[i as int]);
        self.lhs[i]
    }

    /// The second operand of node `i`, which has two.
    pub(crate) fn rhs_at(&self, i: usize) -> (r: usize)
        requires
            self.wf(),
            i < self@.len(),
            self@[i as int].op.arity() >= 2,
        ensures
            r == self@[i as int].operands[1],
            r < i,
    {
        assert(node_ok(self@, i as int));
        self.rhs[i]
    }

    /// A copy of the label of node `i`.
    pub(crate) fn label_at(&self, i: usize) -> (r: String)
        requires
            self.wf(),
            i < self@.len(),
        ensures
            r@ == self@[i as int].label,
    {
        self.labels[i].clone()
    }

    /// Overwrites the value slot of node `i`.
    pub(crate) fn set_value_at(&mut self, i: usize, value: u64)
        requires
            old(self).wf(),
            i < old(self)@.len(),
        ensures
            final(self).wf(),
            final(self).unit() == old(self).unit(),
            final(self)@ == old(self)@.update(i as int, NodeView { value, ..old(self)@[i as int] }),
    {
        self.values[i] = value;
        proof {
            assert forall|j: int| 0 <= j < self@.len() implies #[trigger] node_ok(self@, j) by {
                assert(node_ok(old(self)@, j));
            }
        }
    }

    /// Overwrites the gradient slot of node `i`.
    pub(crate) fn set_grad_at(&mut self, i: usize, grad: u64)
        requires
            old(self).wf(),
            i < old(self)@.len(),
        ensures
            final(self).wf(),
            final(self).unit() == old(self).unit(),
            final(self)@ == old(self)@.update(i as int, NodeView { grad, ..old(self)@[i as int] }),
    {
        self.grads[i] = grad;
        proof {
            assert forall|j: int| 0 <= j < self@.len() implies #[trigger] node_ok(self@, j) by {
                assert(node_ok(old(self)@, j));
            }
        }
    }

    /// Replaces the label of node `i`.
    pub(crate) fn set_label_at(&mut self, i: usize, label: String)
        requires
            old(self).wf(),
            i < old(self)@.len(),
        ensures
            final(self).wf(),
            final(self).unit() == old(self).unit(),
            final(self)@ == old(self)@.update(
                i as int,
                NodeView { label: label@, ..old(self)@[i as int] },
            ),
    {
        self.labels[i] = label;
        proof {
            assert forall|j: int| 0 <= j < self@.len() implies #[trigger] node_ok(self@, j) by {
                assert(node_ok(old(self)@, j));
            }
        }
    }
}

} // verus!
