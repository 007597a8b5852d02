//! A single neuron.

use vstd::prelude::*;
use crate::engine::{all_within, joins, lemma_derived_stays, wraps, Value};
use crate::graph::{acyclic, extends, fresh_leaf, Graph, NodeView, Op};
use crate::label::{indexed_label, indexed_text};
use crate::nn::Module;
use crate::scalar::{Prim, ZERO};

verus! {

/// A single neuron: one weight for each input, a bias, and optionally a
/// rectifier on the way out.
pub struct Neuron {
    w: Vec<Value>,
    b: Value,
    nonlin: bool,
}

impl Neuron {
    /// The weights, in the order of the inputs.
    pub closed spec fn weights(&self) -> Seq<Value> {
        self.w@
    }

    /// The bias.
    pub closed spec fn bias(&self) -> Value {
        self.b
    }

    /// Whether the output is rectified.
    pub closed spec fn nonlinear(&self) -> bool {
        self.nonlin
    }

    /// The neuron is the one that `new` lays out from node `base` on: `nin`
    /// weights in consecutive nodes, labelled `w0`, `w1` and so on, each
    /// with a value drawn from `sample`; then the bias, labelled `b`, with
    /// value zero.
    pub open spec fn made<S: Fn() -> u64>(
        &self,
        sample: S,
        nodes: Seq<NodeView>,
        base: int,
        nin: nat,
        nonlin: bool,
    ) -> bool {
        &&& self.weights().len() == nin
        &&& self.nonlinear() == nonlin
        &&& self.bias().id == base + nin
        &&& forall|i: int| 0 <= i < nin ==> (#[trigger] self.weights()[i]).id == base + i
        &&& forall|n: int|
            base <= n < base + nin ==> fresh_leaf(nodes, n, indexed_label("w"@, (n - base) as nat))
                && call_ensures(sample, (), (#[trigger] nodes[n]).value)
        &&& fresh_leaf(nodes, base + nin, "b"@)
        &&& nodes[base + nin].value == ZERO
    }

    /// Makes a neuron of `nin` inputs in the graph, its weights drawn from
    /// `sample` and its bias zero.
    pub fn new<F: Fn(Prim, u64, u64) -> u64, S: Fn() -> u64>(
        nin: usize,
        nonlin: bool,
        g: &mut Graph<F>,
        sample: &S,
    ) -> (neuron: Neuron)
        requires
            old(g).wf(),
            call_requires(*sample, ()),
        ensures
            final(g).wf(),
            final(g).unit() == old(g).unit(),
            final(g)@.len() == old(g)@.len() + nin + 1,
            extends(old(g)@, final(g)@),
            neuron.made(*sample, final(g)@, old(g)@.len() as int, nin as nat, nonlin),
            all_within(neuron.params(), final(g)@),
    {
        let ghost base = g@.len() as int;
        let mut w: Vec<Value> = Vec::new();
        let mut i: usize = 0;
        while i < nin
            invariant
                g.wf(),
                g.unit() == old(g).unit(),
                call_requires(*sample, ()),
                i <= nin,
                base == old(g)@.len(),
                g@.len() == base + i,
                extends(old(g)@, g@),
                w@.len() == i,
                forall|k: int| 0 <= k < i ==> (#[trigger] w@[k]).id == base + k,
                forall|n: int|
                    base <= n < base + i ==> fresh_leaf(
                        g@,
                        n,
                        indexed_label("w"@, (n - base) as nat),
                    ) && call_ensures(*sample, (), (#[trigger] g@[n]).value),
            decreases nin - i,
        {
            let drawn = sample();
            let weight = Value::new(drawn, indexed_text("w", i), g);
            w.push(weight);
            i += 1;
        }
        let b = Value::new(ZERO, String::from_str("b"), g);
        let neuron = Neuron { w, b, nonlin };
        proof {
            assert forall|k: int| 0 <= k < neuron.params().len() implies (
            #[trigger] neuron.params()[k]).id < g@.len() by {}
        }
        neuron
    }

    /// How many of `xlen` inputs meet a weight: inputs past the last weight,
    /// and weights past the last input, take no part.
    pub open spec fn fan(&self, xlen: nat) -> nat {
        if self.weights().len() <= xlen {
            self.weights().len()
        } else {
            xlen
        }
    }

    /// How many times a forward pass over `xlen` inputs adds to the bias:
    /// once for each input that meets a weight, and once, a zero, where no
    /// input meets a weight. So the pass always adds, and what it returns is
    /// always a node of its own making.
    pub open spec fn steps(&self, xlen: nat) -> nat {
        if self.fan(xlen) == 0 {
            1
        } else {
            self.fan(xlen)
        }
    }

    /// How many nodes a forward pass over `xlen` inputs appends: two for
    /// each time it adds to the bias, what is added and the sum, and one
    /// more where the output is rectified.
    pub open spec fn span(&self, xlen: nat) -> nat {
        if self.nonlinear() {
            2 * self.steps(xlen) + 1
        } else {
            2 * self.steps(xlen)
        }
    }

    /// The node that holds the running sum before the `k`-th input joins it,
    /// in a forward pass laid out from node `base` on: the bias at first,
    /// the latest sum after that.
    pub open spec fn running(&self, base: int, k: int) -> int {
        if k == 0 {
            self.bias().id as int
        } else {
            base + 2 * k - 1
        }
    }

    /// The node that a forward pass over `xlen` inputs, laid out from node
    /// `base` on, returns: the last node that the pass appends.
    pub open spec fn output(&self, xlen: nat, base: int) -> int {
        base + self.span(xlen) - 1
    }

    /// Nodes `base + 2k` and `base + 2k + 1` hold the `k`-th step of the
    /// forward pass: the product of the `k`-th weight and the `k`-th input,
    /// and the sum of the running sum and that product.
    pub open spec fn term<F: Fn(Prim, u64, u64) -> u64>(
        &self,
        unit: F,
        nodes: Seq<NodeView>,
        x: Seq<Value>,
        base: int,
        k: int,
    ) -> bool {
        &&& joins(unit, nodes, base + 2 * k, Op::Mul, self.weights()[k].id as int, x[k].id as int)
        &&& joins(unit, nodes, base + 2 * k + 1, Op::Add, self.running(base, k), base + 2 * k)
    }

    /// Nodes `base` and `base + 1` hold the only step of a forward pass in
    /// which no input meets a weight: a leaf of value zero, labelled `0`,
    /// and the sum of the bias and that leaf.
    pub open spec fn idle<F: Fn(Prim, u64, u64) -> u64>(
        &self,
        unit: F,
        nodes: Seq<NodeView>,
        base: int,
    ) -> bool {
        &&& fresh_leaf(nodes, base, "0"@)
        &&& nodes[base].value == ZERO
        &&& joins(unit, nodes, base + 1, Op::Add, self.bias().id as int, base)
    }

    /// The nodes from `base` on hold the neuron's forward pass over `x`: the
    /// bias plus the sum of the products of weights and inputs, built up
    /// input by input, or the bias plus zero where no input meets a weight;
    /// then rectified where the neuron is nonlinear.
    #[verifier::opaque]
    pub open spec fn forwarded<F: Fn(Prim, u64, u64) -> u64>(
        &self,
        unit: F,
        nodes: Seq<NodeView>,
        x: Seq<Value>,
        base: int,
    ) -> bool {
        let m = self.fan(x.len()) as int;
        let sum = base + 2 * self.steps(x.len()) - 1;
        &&& m == 0 ==> self.idle(unit, nodes, base)
        &&& forall|k: int| 0 <= k < m ==> #[trigger] self.term(unit, nodes, x, base, k)
        &&& self.nonlinear() ==> wraps(unit, nodes, sum + 1, Op::Relu, sum)
    }

    /// Computes the neuron's output on the inputs `x`, appending the nodes
    /// of the computation to the graph, and returns the output node: a new
    /// node on every call, never a parameter and never a node that an
    /// earlier call returned.
    pub fn forward<F: Fn(Prim, u64, u64) -> u64>(
        &self,
        x: &[Value],
        g: &mut Graph<F>,
    ) -> (out: Value)
        requires
            old(g).wf(),
            all_within(self.params(), old(g)@),
            all_within(x@, old(g)@),
        ensures
            final(g).wf(),
            final(g).unit() == old(g).unit(),
            final(g)@.len() == old(g)@.len() + self.span(x@.len()),
            extends(old(g)@, final(g)@),
            self.forwarded(final(g).unit(), final(g)@, x@, old(g)@.len() as int),
            out.id == self.output(x@.len(), old(g)@.len() as int),
            old(g)@.len() <= out.id < final(g)@.len(),
    {
        let ghost base = g@.len() as int;
        let m = if self.w.len() <= x.len() {
            self.w.len()
        } else {
            x.len()
        };
        let mut sum = self.b;
        let mut i: usize = 0;
        proof {
            assert(self.params()[self.weights().len() as int] == self.bias());
        }
        while i < m
            invariant
                g.wf(),
                g.unit() == old(g).unit(),
                base == old(g)@.len(),
                m == self.fan(x@.len()),
                i <= m,
                g@.len() == base + 2 * i,
                extends(old(g)@, g@),
                all_within(self.params(), old(g)@),
                all_within(x@, old(g)@),
                sum.id == self.running(base, i as int),
                sum.within(g),
                forall|k: int| 0 <= k < i ==> #[trigger] self.term(g.unit(), g@, x@, base, k),
            decreases m - i,
        {
            let ghost held = g@;
            let weight = self.w[i];
            let input = x[i];
            proof {
                assert(self.params()[i as int] == self.weights()[i as int]);
            }
            let product = weight.mul(&input, g);
            let ghost between = g@;
            sum = sum.add(&product, g);
            proof {
                assert forall|k: int| 0 <= k < i implies #[trigger] self.term(
                    g.unit(),
                    g@,
                    x@,
                    base,
                    k,
                ) by {
                    assert(self.term(g.unit(), held, x@, base, k));
                    lemma_derived_stays(g.unit(), held, between, base + 2 * k);
                    lemma_derived_stays(g.unit(), between, g@, base + 2 * k);
                    lemma_derived_stays(g.unit(), held, between, base + 2 * k + 1);
                    lemma_derived_stays(g.unit(), between, g@, base + 2 * k + 1);
                }
            }
            i += 1;
        }
        if m == 0 {
            let zero = Value::new(ZERO, String::from_str("0"), g);
            sum = sum.add(&zero, g);
        }
        proof {
            reveal(Neuron::forwarded);
        }
        if self.nonlin {
            let ghost held = g@;
            let out = sum.relu(g);
            proof {
                assert forall|k: int| 0 <= k < m implies #[trigger] self.term(
                    g.unit(),
                    g@,
                    x@,
                    base,
                    k,
                ) by {
                    assert(self.term(g.unit(), held, x@, base, k));
                    lemma_derived_stays(g.unit(), held, g@, base + 2 * k);
                    lemma_derived_stays(g.unit(), held, g@, base + 2 * k + 1);
                }
                if m == 0 {
                    assert(self.idle(g.unit(), held, base));
                    lemma_derived_stays(g.unit(), held, g@, base + 1);
                }
            }
            out
        } else {
            sum
        }
    }
}

impl Module for Neuron {
    /// The weights, then the bias.
    open spec fn params(&self) -> Seq<Value> {
        self.weights().push(self.bias())
    }

    fn parameters(&self) -> (r: Vec<Value>) {
        let mut params = self.w.clone();
        params.push(self.b);
        params
    }
}

/// A forward pass returns a new node each time: it appends at least one
/// node, and what it returns is among the nodes it appends. So the result is
/// no parameter and no node of the graph as it was, and a later pass, which
/// starts where this one ends, returns another node.
pub proof fn lemma_forward_returns_new(neuron: Neuron, nodes: Seq<NodeView>, xlen: nat)
    requires
        all_within(neuron.params(), nodes),
    ensures
        neuron.span(xlen) >= 1,
        nodes.len() <= neuron.output(xlen, nodes.len() as int) < nodes.len() + neuron.span(xlen),
        forall|k: int|
            0 <= k < neuron.params().len() ==> (#[trigger] neuron.params()[k]).id != neuron.output(
                xlen,
                nodes.len() as int,
            ),
{
}

/// One neuron's forward pass stays what it is when the graph grows.
pub proof fn lemma_forwarded_stays<F: Fn(Prim, u64, u64) -> u64>(
    neuron: Neuron,
    unit: F,
    before: Seq<NodeView>,
    after: Seq<NodeView>,
    x: Seq<Value>,
    base: int,
)
    requires
        acyclic(before),
        extends(before, after),
        0 <= base,
        base + neuron.span(x.len()) <= before.len(),
        neuron.forwarded(unit, before, x, base),
    ensures
        neuron.forwarded(unit, after, x, base),
{
    reveal(Neuron::forwarded);
    let m = neuron.fan(x.len()) as int;
    assert forall|k: int| 0 <= k < m implies #[trigger] neuron.term(unit, after, x, base, k) by {
        assert(neuron.term(unit, before, x, base, k));
        lemma_derived_stays(unit, before, after, base + 2 * k);
        lemma_derived_stays(unit, before, after, base + 2 * k + 1);
    }
    if m == 0 {
        assert(after[base] == before[base]);
        lemma_derived_stays(unit, before, after, base + 1);
    }
    if neuron.nonlinear() {
        lemma_derived_stays(unit, before, after, base + 2 * neuron.steps(x.len()));
    }
}

} // verus!
