//! Parameterized modules: what has parameters, how the parameters are reset
//! and how they descend along their gradients.

use vstd::prelude::*;
use crate::engine::{all_within, Value};
use crate::graph::{fresh_leaf, extends, Graph, NodeView};
use crate::label::{indexed_label, indexed_text};
use crate::scalar::{gives, Prim, ZERO};

pub mod neuron;
pub mod layer;
pub mod mlp;

pub use self::layer::Layer;
pub use self::mlp::MLP;
pub use self::neuron::Neuron;

verus! {

/// One of the first `upto` handles of `params` names node `i`.
pub open spec fn names(params: Seq<Value>, upto: int, i: int) -> bool {
    exists|k: int| 0 <= k < upto && (#[trigger] params[k]).id == i
}

/// The graph with the gradient of every node that `params` names set to
/// zero.
pub open spec fn zeroed(nodes: Seq<NodeView>, params: Seq<Value>) -> Seq<NodeView> {
    Seq::new(
        nodes.len(),
        |i: int|
            if names(params, params.len() as int, i) {
                NodeView { grad: ZERO, ..nodes[i] }
            } else {
                nodes[i]
            },
    )
}

/// Resetting gradients twice leaves what resetting them once leaves.
pub proof fn lemma_zeroed_twice(nodes: Seq<NodeView>, params: Seq<Value>)
    ensures
        zeroed(zeroed(nodes, params), params) == zeroed(nodes, params),
{
}

/// `after` is `before` once node `p` has taken one step of gradient descent:
/// its value less the product of `rate` and its gradient.
pub open spec fn stepped<F: Fn(Prim, u64, u64) -> u64>(
    unit: F,
    before: Seq<NodeView>,
    p: int,
    rate: u64,
    after: Seq<NodeView>,
) -> bool {
    &&& exists|stride: u64|
        #![trigger gives(unit, Prim::Mul, rate, before[p].grad, stride)]
        gives(unit, Prim::Mul, rate, before[p].grad, stride) && gives(
            unit,
            Prim::Sub,
            before[p].value,
            stride,
            after[p].value,
        )
    &&& after == before.update(p, NodeView { value: after[p].value, ..before[p] })
}

/// `after` is `before` once the nodes of `params` have each taken one step
/// of gradient descent, one after the other.
pub open spec fn descended<F: Fn(Prim, u64, u64) -> u64>(
    unit: F,
    before: Seq<NodeView>,
    params: Seq<Value>,
    rate: u64,
    after: Seq<NodeView>,
) -> bool
    decreases params.len(),
{
    if params.len() == 0 {
        after == before
    } else {
        exists|between: Seq<NodeView>|
            #![trigger stepped(unit, between, params.last().id as int, rate, after)]
            descended(unit, before, params.drop_last(), rate, between) && stepped(
                unit,
                between,
                params.last().id as int,
                rate,
                after,
            )
    }
}

/// `after` differs from `before` at most in values.
pub open spec fn same_but_values(before: Seq<NodeView>, after: Seq<NodeView>) -> bool {
    &&& after.len() == before.len()
    &&& forall|i: int|
        0 <= i < before.len() ==> #[trigger] after[i] == (NodeView {
            value: after[i].value,
            ..before[i]
        })
}

/// Descent changes values only, and only those of the nodes that `params`
/// names.
pub proof fn lemma_descended_frame<F: Fn(Prim, u64, u64) -> u64>(
    unit: F,
    before: Seq<NodeView>,
    params: Seq<Value>,
    rate: u64,
    after: Seq<NodeView>,
)
    requires
        all_within(params, before),
        descended(unit, before, params, rate, after),
    ensures
        same_but_values(before, after),
        forall|i: int|
            0 <= i < before.len() && !names(params, params.len() as int, i) ==> #[trigger] after[i]
                == before[i],
    decreases params.len(),
{
    if params.len() > 0 {
        let front = params.drop_last();
        let p = params.last().id as int;
        let between = choose|between: Seq<NodeView>|
            #![trigger stepped(unit, between, p, rate, after)]
            descended(unit, before, front, rate, between) && stepped(unit, between, p, rate, after);
        assert forall|k: int| 0 <= k < front.len() implies (#[trigger] front[k]).id < before.len() by {}
        lemma_descended_frame(unit, before, front, rate, between);
        assert forall|i: int| 0 <= i < before.len() implies #[trigger] after[i] == (NodeView {
            value: after[i].value,
            ..before[i]
        }) by {}
        assert forall|i: int|
            0 <= i < before.len() && !names(params, params.len() as int, i) implies #[trigger] after[i]
            == before[i] by {}
    }
}

/// Lets one node take a step of gradient descent.
fn descend<F: Fn(Prim, u64, u64) -> u64>(p: Value, rate: u64, g: &mut Graph<F>)
    requires
        old(g).wf(),
        p.within(old(g)),
    ensures
        final(g).wf(),
        final(g).unit() == old(g).unit(),
        stepped(final(g).unit(), old(g)@, p.id as int, rate, final(g)@),
        same_but_values(old(g)@, final(g)@),
{
    let grad = p.grad(g);
    let value = p.data(g);
    let stride = g.compute(Prim::Mul, rate, grad);
    let moved = g.compute(Prim::Sub, value, stride);
    p.set_data(moved, g);
}

/// What has parameters.
pub trait Module {
    /// The parameters, in order.
    spec fn params(&self) -> Seq<Value>;

    /// The handles of all parameters, in order.
    fn parameters(&self) -> (r: Vec<Value>)
        ensures
            r@ == self.params(),
    ;

    /// Sets the gradient of every parameter to zero.
    fn zero_grad<F: Fn(Prim, u64, u64) -> u64>(&self, g: &mut Graph<F>)
        requires
            old(g).wf(),
            all_within(self.params(), old(g)@),
        ensures
            final(g).wf(),
            final(g).unit() == old(g).unit(),
            final(g)@ == zeroed(old(g)@, self.params()),
            forall|k: int|
                0 <= k < self.params().len() ==> final(g)@[(
                #[trigger] self.params()[k]).id as int].grad == ZERO,
    {
        let params = self.parameters();
        let mut i: usize = 0;
        while i < params.len()
            invariant
                g.wf(),
                g.unit() == old(g).unit(),
                i <= params@.len(),
                params@ == self.params(),
                all_within(params@, g@),
                g@.len() == old(g)@.len(),
                forall|j: int|
                    0 <= j < g@.len() ==> #[trigger] g@[j] == (if names(params@, i as int, j) {
                        NodeView { grad: ZERO, ..old(g)@[j] }
                    } else {
                        old(g)@[j]
                    }),
            decreases params@.len() - i,
        {
            let p = params[i];
            p.set_grad(ZERO, g);
            proof {
                assert forall|j: int| 0 <= j < g@.len() implies #[trigger] g@[j] == (if names(
                    params@,
                    i + 1,
                    j,
                ) {
                    NodeView { grad: ZERO, ..old(g)@[j] }
                } else {
                    old(g)@[j]
                }) by {}
            }
            i += 1;
        }
        proof {
            assert forall|k: int| 0 <= k < self.params().len() implies g@[(
            #[trigger] self.params()[k]).id as int].grad == ZERO by {}
        }
    }

    /// Lets every parameter take one step of gradient descent: its value
    /// less the product of `rate` and its gradient.
    fn update<F: Fn(Prim, u64, u64) -> u64>(&self, rate: u64, g: &mut Graph<F>)
        requires
            old(g).wf(),
            all_within(self.params(), old(g)@),
        ensures
            final(g).wf(),
            final(g).unit() == old(g).unit(),
            descended(final(g).unit(), old(g)@, self.params(), rate, final(g)@),
            same_but_values(old(g)@, final(g)@),
            forall|i: int|
                0 <= i < old(g)@.len() && !names(self.params(), self.params().len() as int, i)
                    ==> #[trigger] final(g)@[i] == old(g)@[i],
    {
        let params = self.parameters();
        let mut i: usize = 0;
        while i < params.len()
            invariant
                g.wf(),
                g.unit() == old(g).unit(),
                i <= params@.len(),
                params@ == self.params(),
                all_within(params@, g@),
                same_but_values(old(g)@, g@),
                descended(g.unit(), old(g)@, params@.take(i as int), rate, g@),
            decreases params@.len() - i,
        {
            descend(params[i], rate, g);
            proof {
                let done = params@.take(i + 1);
                assert(done.drop_last() =~= params@.take(i as int));
                assert(done.last() == params@[i as int]);
            }
            i += 1;
        }
        proof {
            assert(params@.take(params@.len() as int) =~= params@);
            lemma_descended_frame(g.unit(), old(g)@, params@, rate, g@);
        }
    }
}

/// Makes the leaves of one training example: one input for each of
/// `inputs`, labelled `x0`, `x1` and so on, then the target, labelled `y`.
pub fn training_example<F: Fn(Prim, u64, u64) -> u64>(
    inputs: &[u64],
    target: u64,
    g: &mut Graph<F>,
) -> (row: (Vec<Value>, Value))
    requires
        old(g).wf(),
    ensures
        final(g).wf(),
        final(g).unit() == old(g).unit(),
        final(g)@.len() == old(g)@.len() + inputs@.len() + 1,
        extends(old(g)@, final(g)@),
        row.0@.len() == inputs@.len(),
        forall|i: int| 0 <= i < inputs@.len() ==> (#[trigger] row.0@[i]).id == old(g)@.len() + i,
        forall|n: int|
            old(g)@.len() <= n < old(g)@.len() + inputs@.len() ==> fresh_leaf(
                final(g)@,
                n,
                indexed_label("x"@, (n - old(g)@.len()) as nat),
            ) && (#[trigger] final(g)@[n]).value == inputs@[n - old(g)@.len()],
        row.1.id == old(g)@.len() + inputs@.len(),
        fresh_leaf(final(g)@, row.1.id as int, "y"@),
        final(g)@[row.1.id as int].value == target,
{
    let ghost base = g@.len() as int;
    let mut x: Vec<Value> = Vec::new();
    let mut i: usize = 0;
    while i < inputs.len()
        invariant
            g.wf(),
            g.unit() == old(g).unit(),
            i <= inputs@.len(),
            base == old(g)@.len(),
            g@.len() == base + i,
            extends(old(g)@, g@),
            x@.len() == i,
            forall|k: int| 0 <= k < i ==> (#[trigger] x@[k]).id == base + k,
            forall|n: int|
                base <= n < base + i ==> fresh_leaf(
                    g@,
                    n,
                    indexed_label("x"@, (n - base) as nat),
                ) && (#[trigger] g@[n]).value == inputs@[n - base],
        decreases inputs@.len() - i,
    {
        let leaf = Value::new(inputs[i], indexed_text("x", i), g);
        x.push(leaf);
        i += 1;
    }
    let y = Value::new(target, String::from_str("y"), g);
    (x, y)
}

} // verus!
