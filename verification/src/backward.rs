//! Backward propagation: the gradient rule of each operation, and the sweep
//! that applies the rules in reverse topological order.
//!
//! Gradients are accumulators. A node that several consumers share receives
//! one contribution from each, and a sweep adds to whatever the gradients
//! held before it, so they are to be reset between sweeps.

use vstd::prelude::*;
use crate::engine::{operand_value, Value};
use crate::graph::{acyclic, node_ok, Graph, NodeView, Op};
use crate::scalar::{gives, is_positive, positive, Prim, ONE, ZERO};
use crate::topo::{ids, lemma_topo_order_valid, topo_order, visit};

verus! {

/// `after` differs from `before` at most in gradients.
pub open spec fn same_but_grads(before: Seq<NodeView>, after: Seq<NodeView>) -> bool {
    &&& after.len() == before.len()
    &&& forall|i: int|
        0 <= i < before.len() ==> #[trigger] after[i] == (NodeView {
            grad: after[i].grad,
            ..before[i]
        })
}

/// `after` is `before` with the gradient of node `target` replaced by what
/// the unit gives for `how` on the old gradient and `amount`.
pub open spec fn accumulated<F: Fn(Prim, u64, u64) -> u64>(
    unit: F,
    before: Seq<NodeView>,
    target: int,
    how: Prim,
    amount: u64,
    after: Seq<NodeView>,
) -> bool {
    &&& gives(unit, how, before[target].grad, amount, after[target].grad)
    &&& after == before.update(target, NodeView { grad: after[target].grad, ..before[target] })
}

/// `c` is what a quotient passes to its divisor: the gradient `g` times the
/// quotient of the negated dividend `a` and the square of the divisor `b`.
pub open spec fn divisor_share<F: Fn(Prim, u64, u64) -> u64>(
    unit: F,
    a: u64,
    b: u64,
    g: u64,
    c: u64,
) -> bool {
    exists|negated: u64, square: u64, slope: u64|
        #![trigger
            gives(unit, Prim::Neg, a, ZERO, negated),
            gives(unit, Prim::Mul, b, b, square),
            gives(unit, Prim::Mul, g, slope, c),
        ]
        {
            &&& gives(unit, Prim::Neg, a, ZERO, negated)
            &&& gives(unit, Prim::Mul, b, b, square)
            &&& gives(unit, Prim::Div, negated, square, slope)
            &&& gives(unit, Prim::Mul, g, slope, c)
        }
}

/// `c` is what a power passes to its base `a`: the exponent times the base
/// to the exponent less one, times the gradient `g`.
pub open spec fn power_share<F: Fn(Prim, u64, u64) -> u64>(
    unit: F,
    exponent: u64,
    a: u64,
    g: u64,
    c: u64,
) -> bool {
    exists|lowered: u64, raised: u64, slope: u64|
        #![trigger
            gives(unit, Prim::Sub, exponent, ONE, lowered),
            gives(unit, Prim::Powf, a, lowered, raised),
            gives(unit, Prim::Mul, slope, g, c),
        ]
        {
            &&& gives(unit, Prim::Sub, exponent, ONE, lowered)
            &&& gives(unit, Prim::Powf, a, lowered, raised)
            &&& gives(unit, Prim::Mul, exponent, raised, slope)
            &&& gives(unit, Prim::Mul, slope, g, c)
        }
}

/// `c` is what a hyperbolic tangent with result `t` passes to its operand:
/// one less the square of `t`, times the gradient `g`.
pub open spec fn tanh_share<F: Fn(Prim, u64, u64) -> u64>(unit: F, t: u64, g: u64, c: u64) -> bool {
    exists|square: u64, slope: u64|
        #![trigger gives(unit, Prim::Mul, t, t, square), gives(unit, Prim::Mul, slope, g, c)]
        {
            &&& gives(unit, Prim::Mul, t, t, square)
            &&& gives(unit, Prim::Sub, ONE, square, slope)
            &&& gives(unit, Prim::Mul, slope, g, c)
        }
}

/// `c` is a contribution that node `n` may pass to its `k`-th operand, by
/// the gradient rule of its operation applied to its own gradient.
pub open spec fn contribution<F: Fn(Prim, u64, u64) -> u64>(
    unit: F,
    nodes: Seq<NodeView>,
    n: int,
    k: int,
    c: u64,
) -> bool {
    let g = nodes[n].grad;
    let a = operand_value(nodes, nodes[n].operands, 0);
    let b = operand_value(nodes, nodes[n].operands, 1);
    match nodes[n].op {
        Op::Leaf => false,
        Op::Add | Op::Sub => c == g,
        Op::Mul => if k == 0 {
            gives(unit, Prim::Mul, b, g, c)
        } else {
            gives(unit, Prim::Mul, a, g, c)
        },
        Op::Div => if k == 0 {
            gives(unit, Prim::Div, g, b, c)
        } else {
            divisor_share(unit, a, b, g, c)
        },
        Op::Pow(exponent) => power_share(unit, exponent, a, g, c),
        Op::Tanh => tanh_share(unit, nodes[n].value, g, c),
        Op::Relu => c == (if positive(nodes[n].value) {
            g
        } else {
            ZERO
        }),
    }
}

/// How the second operand's gradient takes its contribution: a difference
/// takes it away, every other operation adds it.
pub open spec fn second_joins(op: Op) -> Prim {
    if op == Op::Sub {
        Prim::Sub
    } else {
        Prim::Add
    }
}

/// `after` is `before` once node `n` has applied its gradient rule: each
/// operand's gradient has taken the node's contribution, the first operand
/// before the second. A leaf changes nothing.
pub open spec fn propagated<F: Fn(Prim, u64, u64) -> u64>(
    unit: F,
    before: Seq<NodeView>,
    n: int,
    after: Seq<NodeView>,
) -> bool {
    let operands = before[n].operands;
    if operands.len() == 1 {
        exists|c: u64|
            contribution(unit, before, n, 0, c) && #[trigger] accumulated(
                unit,
                before,
                operands[0] as int,
                Prim::Add,
                c,
                after,
            )
    } else if operands.len() == 2 {
        exists|c: u64, d: u64, between: Seq<NodeView>|
            contribution(unit, before, n, 0, c) && contribution(unit, before, n, 1, d)
                && #[trigger] accumulated(unit, before, operands[0] as int, Prim::Add, c, between)
                && #[trigger] accumulated(
                unit,
                between,
                operands[1] as int,
                second_joins(before[n].op),
                d,
                after,
            )
    } else {
        after == before
    }
}

/// Node `v` is an operand of one of the nodes of `steps`.
pub open spec fn fed(nodes: Seq<NodeView>, steps: Seq<usize>, v: usize) -> bool {
    exists|i: int| 0 <= i < steps.len() && (#[trigger] nodes[steps[i] as int]).operands.contains(v)
}

/// `after` is `before` once the nodes of `steps` have applied their rules,
/// one after the other.
pub open spec fn swept<F: Fn(Prim, u64, u64) -> u64>(
    unit: F,
    before: Seq<NodeView>,
    steps: Seq<usize>,
    after: Seq<NodeView>,
) -> bool
    decreases steps.len(),
{
    if steps.len() == 0 {
        after == before
    } else {
        exists|between: Seq<NodeView>|
            #![trigger propagated(unit, between, steps.last() as int, after)]
            swept(unit, before, steps.drop_last(), between) && propagated(
                unit,
                between,
                steps.last() as int,
                after,
            )
    }
}

/// The graph with the gradient of `root` set to one.
pub open spec fn seeded(nodes: Seq<NodeView>, root: int) -> Seq<NodeView> {
    nodes.update(root, NodeView { grad: ONE, ..nodes[root] })
}

/// `after` is `before` once a backward pass has run from `root`: the root's
/// gradient is seeded with one, then every node below the root applies its
/// rule, in the reverse of the topological order.
pub open spec fn backpropagated<F: Fn(Prim, u64, u64) -> u64>(
    unit: F,
    before: Seq<NodeView>,
    root: usize,
    after: Seq<NodeView>,
) -> bool {
    swept(unit, seeded(before, root as int), topo_order(before, root).reverse(), after)
}

/// The topological order looks at operands only: two graphs that agree on
/// them give the same order.
pub proof fn lemma_visit_shape(
    first: Seq<NodeView>,
    second: Seq<NodeView>,
    v: usize,
    seen: Set<usize>,
)
    requires
        first.len() == second.len(),
        forall|i: int|
            0 <= i < first.len() ==> (#[trigger] first[i]).operands == second[i].operands,
    ensures
        visit(first, v, seen) == visit(second, v, seen),
    decreases v,
{
    if v < first.len() && !seen.contains(v) {
        let operands = first[v as int].operands;
        if operands.len() == 1 && operands[0] < v {
            lemma_visit_shape(first, second, operands[0], seen);
        } else if operands.len() == 2 && operands[0] < v && operands[1] < v {
            lemma_visit_shape(first, second, operands[0], seen);
            lemma_visit_shape(
                first,
                second,
                operands[1],
                seen + visit(first, operands[0], seen).to_set(),
            );
        }
    }
}

/// One rule changes gradients only.
pub proof fn lemma_propagated_frame<F: Fn(Prim, u64, u64) -> u64>(
    unit: F,
    before: Seq<NodeView>,
    n: int,
    after: Seq<NodeView>,
)
    requires
        acyclic(before),
        0 <= n < before.len(),
        propagated(unit, before, n, after),
    ensures
        same_but_grads(before, after),
        acyclic(after),
        forall|v: usize|
            v < before.len() && !before[n].operands.contains(v) ==> (
            #[trigger] after[v as int]).grad == before[v as int].grad,
{
    assert(node_ok(before, n));
    let operands = before[n].operands;
    if operands.len() == 1 {
    } else if operands.len() == 2 {
        let (c, d, between) = choose|c: u64, d: u64, between: Seq<NodeView>|
            contribution(unit, before, n, 0, c) && contribution(unit, before, n, 1, d)
                && #[trigger] accumulated(unit, before, operands[0] as int, Prim::Add, c, between)
                && #[trigger] accumulated(
                unit,
                between,
                operands[1] as int,
                second_joins(before[n].op),
                d,
                after,
            );
    }
    assert forall|i: int| 0 <= i < after.len() implies #[trigger] node_ok(after, i) by {
        assert(node_ok(before, i));
    }
}

/// A sweep changes gradients only, and only those of operands of the nodes
/// that take a step.
pub proof fn lemma_swept_frame<F: Fn(Prim, u64, u64) -> u64>(
    unit: F,
    before: Seq<NodeView>,
    steps: Seq<usize>,
    after: Seq<NodeView>,
)
    requires
        acyclic(before),
        forall|i: int| 0 <= i < steps.len() ==> (#[trigger] steps[i]) < before.len(),
        swept(unit, before, steps, after),
    ensures
        same_but_grads(before, after),
        acyclic(after),
        forall|v: usize|
            v < before.len() && !fed(before, steps, v) ==> (#[trigger] after[v as int]).grad
                == before[v as int].grad,
    decreases steps.len(),
{
    if steps.len() > 0 {
        let front = steps.drop_last();
        let n = steps.last();
        let between = choose|between: Seq<NodeView>|
            #![trigger propagated(unit, between, n as int, after)]
            swept(unit, before, front, between) && propagated(unit, between, n as int, after);
        lemma_swept_frame(unit, before, front, between);
        lemma_propagated_frame(unit, between, n as int, after);
        assert forall|v: usize| v < before.len() && !fed(before, steps, v) implies (
        #[trigger] after[v as int]).grad == before[v as int].grad by {}
        assert forall|i: int| 0 <= i < before.len() implies #[trigger] after[i] == (NodeView {
            grad: after[i].grad,
            ..before[i]
        }) by {}
    } else {
        assert forall|i: int| 0 <= i < after.len() implies #[trigger] node_ok(after, i) by {}
    }
}

/// What a backward pass leaves: values, operations, operands and labels as
/// they were; the root's gradient one; and the gradient of every node that
/// the root does not depend on as it was.
pub proof fn lemma_backpropagated_frame<F: Fn(Prim, u64, u64) -> u64>(
    unit: F,
    before: Seq<NodeView>,
    root: usize,
    after: Seq<NodeView>,
)
    requires
        acyclic(before),
        root < before.len(),
        backpropagated(unit, before, root, after),
    ensures
        same_but_grads(before, after),
        acyclic(after),
        after[root as int].grad == ONE,
        forall|v: usize|
            v < before.len() && !topo_order(before, root).contains(v) ==> (
            #[trigger] after[v as int]).grad == before[v as int].grad,
{
    let order = topo_order(before, root);
    let steps = order.reverse();
    let start = seeded(before, root as int);
    lemma_topo_order_valid(before, root);
    assert forall|i: int| 0 <= i < start.len() implies #[trigger] node_ok(start, i) by {
        assert(node_ok(before, i));
    }
    assert forall|i: int| 0 <= i < steps.len() implies (#[trigger] steps[i]) < start.len() by {}
    lemma_swept_frame(unit, start, steps, after);
    assert forall|v: usize| v < before.len() && #[trigger] fed(start, steps, v) implies order.contains(
        v,
    ) && v != root by {}
    assert forall|i: int| 0 <= i < before.len() implies #[trigger] after[i] == (NodeView {
        grad: after[i].grad,
        ..before[i]
    }) by {}
}

/// The observer can be shown any node of any well-formed graph.
pub open spec fn watches<F: Fn(Prim, u64, u64) -> u64, O: Fn(Value, &Graph<F>)>(viz: O) -> bool {
    forall|node: Value, g: &Graph<F>|
        g.wf() && node.within(g) ==> #[trigger] call_requires(viz, (node, g))
}

/// `after` is `before` once the nodes of `steps` have applied their rules,
/// one after the other, each of them shown to the observer just before: to
/// every step belongs one call of `viz`, on the node that takes the step and
/// on the graph as it stands before the step.
pub open spec fn shown<F: Fn(Prim, u64, u64) -> u64, O: Fn(Value, &Graph<F>)>(
    viz: O,
    unit: F,
    before: Seq<NodeView>,
    steps: Seq<usize>,
    after: Seq<NodeView>,
) -> bool
    decreases steps.len(),
{
    if steps.len() == 0 {
        after == before
    } else {
        exists|between: Seq<NodeView>, seen: Graph<F>|
            #![trigger
                propagated(unit, between, steps.last() as int, after),
                call_ensures(viz, (Value { id: steps.last() }, &seen), ()),
            ]
            {
                &&& shown(viz, unit, before, steps.drop_last(), between)
                &&& seen@ == between
                &&& seen.unit() == unit
                &&& call_ensures(viz, (Value { id: steps.last() }, &seen), ())
                &&& propagated(unit, between, steps.last() as int, after)
            }
    }
}

/// What was shown step by step was swept.
pub proof fn lemma_shown_swept<F: Fn(Prim, u64, u64) -> u64, O: Fn(Value, &Graph<F>)>(
    viz: O,
    unit: F,
    before: Seq<NodeView>,
    steps: Seq<usize>,
    after: Seq<NodeView>,
)
    requires
        shown(viz, unit, before, steps, after),
    ensures
        swept(unit, before, steps, after),
    decreases steps.len(),
{
    if steps.len() > 0 {
        let (between, seen) = choose|between: Seq<NodeView>, seen: Graph<F>|
            #![trigger
                propagated(unit, between, steps.last() as int, after),
                call_ensures(viz, (Value { id: steps.last() }, &seen), ()),
            ]
            {
                &&& shown(viz, unit, before, steps.drop_last(), between)
                &&& seen@ == between
                &&& seen.unit() == unit
                &&& call_ensures(viz, (Value { id: steps.last() }, &seen), ())
                &&& propagated(unit, between, steps.last() as int, after)
            };
        lemma_shown_swept(viz, unit, before, steps.drop_last(), between);
    }
}

/// The observer that looks at nothing.
fn unwatched<F: Fn(Prim, u64, u64) -> u64>(_node: Value, _g: &Graph<F>) {
}

impl Value {
    /// Passes `amount` into the gradient of this node.
    fn accumulate<F: Fn(Prim, u64, u64) -> u64>(&self, how: Prim, amount: u64, g: &mut Graph<F>)
        requires
            old(g).wf(),
            self.within(old(g)),
        ensures
            final(g).wf(),
            final(g).unit() == old(g).unit(),
            accumulated(final(g).unit(), old(g)@, self.id as int, how, amount, final(g)@),
    {
        let held = g.grad_at(self.id);
        let joined = g.compute(how, held, amount);
        g.set_grad_at(self.id, joined);
    }

    /// Computes what this node passes to its `k`-th operand.
    fn share<F: Fn(Prim, u64, u64) -> u64>(&self, k: usize, g: &Graph<F>) -> (c: u64)
        requires
            g.wf(),
            self.within(g),
            k < g@[self.id as int].op.arity(),
        ensures
            contribution(g.unit(), g@, self.id as int, k as int, c),
    {
        proof {
            assert(node_ok(g@, self.id as int));
        }
        let grad = g.grad_at(self.id);
        match g.op_at(self.id) {
            Op::Leaf => unreached(),
            Op::Add | Op::Sub => grad,
            Op::Mul => {
                if k == 0 {
                    let b = g.value_at(g.rhs_at(self.id));
                    g.compute(Prim::Mul, b, grad)
                } else {
                    let a = g.value_at(g.lhs_at(self.id));
                    g.compute(Prim::Mul, a, grad)
                }
            },
            Op::Div => {
                let a = g.value_at(g.lhs_at(self.id));
                let b = g.value_at(g.rhs_at(self.id));
                if k == 0 {
                    g.compute(Prim::Div, grad, b)
                } else {
                    let negated = g.compute(Prim::Neg, a, ZERO);
                    let square = g.compute(Prim::Mul, b, b);
                    let slope = g.compute(Prim::Div, negated, square);
                    g.compute(Prim::Mul, grad, slope)
                }
            },
            Op::Pow(exponent) => {
                let a = g.value_at(g.lhs_at(self.id));
                let lowered = g.compute(Prim::Sub, exponent, ONE);
                let raised = g.compute(Prim::Powf, a, lowered);
                let slope = g.compute(Prim::Mul, exponent, raised);
                g.compute(Prim::Mul, slope, grad)
            },
            Op::Tanh => {
                let t = g.value_at(self.id);
                let square = g.compute(Prim::Mul, t, t);
                let slope = g.compute(Prim::Sub, ONE, square);
                g.compute(Prim::Mul, slope, grad)
            },
            Op::Relu => {
                if is_positive(g.value_at(self.id)) {
                    grad
                } else {
                    ZERO
                }
            },
        }
    }

    /// Applies this node's gradient rule once: each operand's gradient takes
    /// what the node passes to it. A leaf has no rule, and nothing changes.
    pub fn propagate<F: Fn(Prim, u64, u64) -> u64>(&self, g: &mut Graph<F>)
        requires
            old(g).wf(),
            self.within(old(g)),
        ensures
            final(g).wf(),
            final(g).unit() == old(g).unit(),
            propagated(final(g).unit(), old(g)@, self.id as int, final(g)@),
            same_but_grads(old(g)@, final(g)@),
    {
        proof {
            assert(node_ok(g@, self.id as int));
        }
        match g.op_at(self.id) {
            Op::Leaf => {},
            Op::Pow(_) | Op::Tanh | Op::Relu => {
                let c = self.share(0, g);
                let operand = Value { id: g.lhs_at(self.id) };
                operand.accumulate(Prim::Add, c, g);
            },
            Op::Add | Op::Mul | Op::Div => {
                let c = self.share(0, g);
                let d = self.share(1, g);
                let first = Value { id: g.lhs_at(self.id) };
                let second = Value { id: g.rhs_at(self.id) };
                first.accumulate(Prim::Add, c, g);
                second.accumulate(Prim::Add, d, g);
            },
            Op::Sub => {
                let c = self.share(0, g);
                let d = self.share(1, g);
                let first = Value { id: g.lhs_at(self.id) };
                let second = Value { id: g.rhs_at(self.id) };
                first.accumulate(Prim::Add, c, g);
                second.accumulate(Prim::Sub, d, g);
            },
        }
    }

    /// Runs a backward pass from this node: sets its gradient to one, then
    /// lets every node it depends on apply its gradient rule, consumers
    /// before their operands.
    pub fn backward<F: Fn(Prim, u64, u64) -> u64>(&self, g: &mut Graph<F>)
        requires
            old(g).wf(),
            self.within(old(g)),
        ensures
            final(g).wf(),
            final(g).unit() == old(g).unit(),
            backpropagated(final(g).unit(), old(g)@, self.id, final(g)@),
            same_but_grads(old(g)@, final(g)@),
            final(g)@[self.id as int].grad == ONE,
            forall|v: usize|
                v < old(g)@.len() && !topo_order(old(g)@, self.id).contains(v) ==> (
                #[trigger] final(g)@[v as int]).grad == old(g)@[v as int].grad,
    {
        self.backward_with_viz(g, &unwatched::<F>);
    }

    /// Runs a backward pass from this node as `backward` does, and shows
    /// each node to `viz`, with the graph as it stands, just before the node
    /// applies its gradient rule: once for each node that the root reaches,
    /// consumers before their operands. The observer only reads; it may
    /// take its time.
    pub fn backward_with_viz<F: Fn(Prim, u64, u64) -> u64, O: Fn(Value, &Graph<F>)>(
        &self,
        g: &mut Graph<F>,
        viz: &O,
    )
        requires
            old(g).wf(),
            self.within(old(g)),
            watches(*viz),
        ensures
            final(g).wf(),
            final(g).unit() == old(g).unit(),
            shown(
                *viz,
                final(g).unit(),
                seeded(old(g)@, self.id as int),
                topo_order(old(g)@, self.id).reverse(),
                final(g)@,
            ),
            backpropagated(final(g).unit(), old(g)@, self.id, final(g)@),
            same_but_grads(old(g)@, final(g)@),
            final(g)@[self.id as int].grad == ONE,
            forall|v: usize|
                v < old(g)@.len() && !topo_order(old(g)@, self.id).contains(v) ==> (
                #[trigger] final(g)@[v as int]).grad == old(g)@[v as int].grad,
    {
        g.set_grad_at(self.id, ONE);
        let order = self.build_topo(g);
        let ghost start = g@;
        let ghost steps = topo_order(old(g)@, self.id).reverse();
        proof {
            lemma_visit_shape(start, old(g)@, self.id, Set::empty());
        }
        let mut left = order.len();
        while left > 0
            invariant
                g.wf(),
                g.unit() == old(g).unit(),
                watches(*viz),
                left <= order@.len(),
                ids(order@) == topo_order(old(g)@, self.id),
                steps == topo_order(old(g)@, self.id).reverse(),
                forall|i: int| 0 <= i < order@.len() ==> (#[trigger] order@[i]).id <= self.id,
                self.within(g),
                same_but_grads(start, g@),
                shown(*viz, g.unit(), start, steps.take(order@.len() - left), g@),
            decreases left,
        {
            left -= 1;
            let node = order[left];
            let ghost held = g@;
            let ghost seen = *g;
            viz(node, g);
            node.propagate(g);
            proof {
                let done = order@.len() - left;
                assert(steps.take(done).drop_last() =~= steps.take(done - 1));
                assert(node == Value { id: steps.take(done).last() });
                assert(call_ensures(*viz, (Value { id: steps.take(done).last() }, &seen), ()));
                assert(propagated(g.unit(), held, steps.take(done).last() as int, g@));
            }
        }
        proof {
            assert(steps.take(order@.len() as int) =~= steps);
            lemma_shown_swept(*viz, g.unit(), start, steps, g@);
            lemma_backpropagated_frame(g.unit(), old(g)@, self.id, g@);
        }
    }
}

} // verus!
