//! A layer of neurons.

use vstd::prelude::*;
use crate::engine::{all_within, Value};
use crate::graph::{acyclic, extends, fresh_leaf, Graph, NodeView};
use crate::label::indexed_label;
use crate::nn::neuron::{lemma_forwarded_stays, Neuron};
use crate::nn::Module;
use crate::scalar::Prim;

verus! {

/// The parameters of a row of neurons: those of the first neuron, then
/// those of the second, and so on.
pub open spec fn gathered(neurons: Seq<Neuron>) -> Seq<Value>
    decreases neurons.len(),
{
    if neurons.len() == 0 {
        Seq::empty()
    } else {
        gathered(neurons.drop_last()) + neurons.last().params()
    }
}

/// The gathered parameters lie within a graph exactly when each neuron's
/// own parameters do.
pub proof fn lemma_gathered_within(neurons: Seq<Neuron>, nodes: Seq<NodeView>)
    ensures
        all_within(gathered(neurons), nodes) <==> (forall|i: int|
            0 <= i < neurons.len() ==> all_within((#[trigger] neurons[i]).params(), nodes)),
    decreases neurons.len(),
{
    if neurons.len() > 0 {
        let front = neurons.drop_last();
        let last = neurons.last();
        lemma_gathered_within(front, nodes);
        let all = gathered(neurons);
        let head = gathered(front);
        if all_within(all, nodes) {
            assert forall|i: int| 0 <= i < neurons.len() implies all_within(
                (#[trigger] neurons[i]).params(),
                nodes,
            ) by {
                if i < front.len() {
                    assert forall|k: int| 0 <= k < head.len() implies (#[trigger] head[k]).id
                        < nodes.len() by {
                        assert(all[k] == head[k]);
                    }
                    assert(front[i] == neurons[i]);
                } else {
                    assert forall|k: int| 0 <= k < last.params().len() implies (
                    #[trigger] last.params()[k]).id < nodes.len() by {
                        assert(all[head.len() + k] == last.params()[k]);
                    }
                }
            }
        }
        if forall|i: int|
            0 <= i < neurons.len() ==> all_within((#[trigger] neurons[i]).params(), nodes) {
            assert forall|i: int| 0 <= i < front.len() implies all_within(
                (#[trigger] front[i]).params(),
                nodes,
            ) by {}
            assert forall|k: int| 0 <= k < all.len() implies (#[trigger] all[k]).id
                < nodes.len() by {}
        }
    }
}

/// A layer's forward pass goes on by one neuron.
proof fn lemma_layer_forward_step<F: Fn(Prim, u64, u64) -> u64>(
    layer: Layer,
    unit: F,
    held: Seq<NodeView>,
    after: Seq<NodeView>,
    x: Seq<Value>,
    base: int,
    i: int,
)
    requires
        acyclic(held),
        extends(held, after),
        0 <= base,
        0 <= i < layer.neurons().len(),
        held.len() == base + layer.offset(x.len(), i),
        after.len() == held.len() + layer.neurons()[i].span(x.len()),
        forall|k: int|
            0 <= k < i ==> (#[trigger] layer.neurons()[k]).forwarded(
                unit,
                held,
                x,
                base + layer.offset(x.len(), k),
            ),
        layer.neurons()[i].forwarded(unit, after, x, held.len() as int),
    ensures
        after.len() == base + layer.offset(x.len(), i + 1),
        forall|k: int|
            0 <= k < i + 1 ==> (#[trigger] layer.neurons()[k]).forwarded(
                unit,
                after,
                x,
                base + layer.offset(x.len(), k),
            ),
{
    assert forall|k: int| 0 <= k < i + 1 implies (#[trigger] layer.neurons()[k]).forwarded(
        unit,
        after,
        x,
        base + layer.offset(x.len(), k),
    ) by {
        if k < i {
            layer.lemma_offset_grows(x.len(), k, k);
            layer.lemma_offset_grows(x.len(), k + 1, i);
            let from = base + layer.offset(x.len(), k);
            lemma_forwarded_stays(layer.neurons()[k], unit, held, after, x, from);
        }
    }
}

/// A layer: a row of neurons that all read the same inputs.
pub struct Layer {
    neurons: Vec<Neuron>,
}

impl Layer {
    /// The neurons, in order.
    pub closed spec fn neurons(&self) -> Seq<Neuron> {
        self.neurons@
    }

    /// The layer is the one that `new` lays out from node `base` on: `nout`
    /// neurons of `nin` inputs each, one after the other.
    pub open spec fn made<S: Fn() -> u64>(
        &self,
        sample: S,
        nodes: Seq<NodeView>,
        base: int,
        nin: nat,
        nout: nat,
        nonlin: bool,
    ) -> bool {
        &&& self.neurons().len() == nout
        &&& forall|i: int|
            0 <= i < nout ==> (#[trigger] self.neurons()[i]).made(
                sample,
                nodes,
                base + i * (nin + 1),
                nin,
                nonlin,
            )
    }

    /// Makes a layer of `nout` neurons of `nin` inputs each.
    pub fn new<F: Fn(Prim, u64, u64) -> u64, S: Fn() -> u64>(
        nin: usize,
        nout: usize,
        nonlin: bool,
        g: &mut Graph<F>,
        sample: &S,
    ) -> (layer: Layer)
        requires
            old(g).wf(),
            call_requires(*sample, ()),
        ensures
            final(g).wf(),
            final(g).unit() == old(g).unit(),
            final(g)@.len() == old(g)@.len() + nout * (nin + 1),
            extends(old(g)@, final(g)@),
            layer.made(*sample, final(g)@, old(g)@.len() as int, nin as nat, nout as nat, nonlin),
            all_within(layer.params(), final(g)@),
    {
        let ghost base = g@.len() as int;
        let mut neurons: Vec<Neuron> = Vec::new();
        let mut i: usize = 0;
        while i < nout
            invariant
                g.wf(),
                g.unit() == old(g).unit(),
                call_requires(*sample, ()),
                i <= nout,
                base == old(g)@.len(),
                g@.len() == base + i * (nin + 1),
                extends(old(g)@, g@),
                neurons@.len() == i,
                forall|k: int|
                    0 <= k < i ==> (#[trigger] neurons@[k]).made(
                        *sample,
                        g@,
                        base + k * (nin + 1),
                        nin as nat,
                        nonlin,
                    ),
                forall|k: int| 0 <= k < i ==> all_within((#[trigger] neurons@[k]).params(), g@),
            decreases nout - i,
        {
            let neuron = Neuron::new(nin, nonlin, g, sample);
            neurons.push(neuron);
            proof {
                assert((i + 1) * (nin + 1) == i * (nin + 1) + (nin + 1)) by (nonlinear_arith);
                assert forall|k: int| 0 <= k < i + 1 implies (#[trigger] neurons@[k]).made(
                    *sample,
                    g@,
                    base + k * (nin + 1),
                    nin as nat,
                    nonlin,
                ) by {
                    if k < i {
                        assert((k + 1) * (nin + 1) == k * (nin + 1) + (nin + 1))
                            by (nonlinear_arith);
                        assert((k + 1) * (nin + 1) <= i * (nin + 1)) by (nonlinear_arith)
                            requires
                                k + 1 <= i,
                                nin + 1 >= 0,
                        ;
                    }
                }
                assert forall|k: int| 0 <= k < i + 1 implies all_within(
                    (#[trigger] neurons@[k]).params(),
                    g@,
                ) by {}
            }
            i += 1;
        }
        proof {
            lemma_gathered_within(neurons@, g@);
        }
        Layer { neurons }
    }

    /// How many nodes the first `i` neurons append in a forward pass over
    /// `xlen` inputs.
    pub open spec fn offset(&self, xlen: nat, i: int) -> int
        decreases i,
    {
        if i <= 0 {
            0
        } else {
            self.offset(xlen, i - 1) + self.neurons()[i - 1].span(xlen)
        }
    }

    /// The count of appended nodes starts at zero and never falls from one
    /// neuron to the next.
    pub proof fn lemma_offset_grows(&self, xlen: nat, j: int, i: int)
        requires
            0 <= j <= i,
        ensures
            0 <= self.offset(xlen, j) <= self.offset(xlen, i),
            self.offset(xlen, j + 1) == self.offset(xlen, j) + self.neurons()[j].span(xlen),
        decreases i,
    {
        if j < i {
            self.lemma_offset_grows(xlen, j, i - 1);
        } else if j > 0 {
            self.lemma_offset_grows(xlen, j - 1, j - 1);
        }
    }

    /// How many nodes a forward pass over `xlen` inputs appends.
    pub open spec fn span(&self, xlen: nat) -> int {
        self.offset(xlen, self.neurons().len() as int)
    }

    /// The nodes that a forward pass over `xlen` inputs, laid out from node
    /// `base` on, returns: the output of each neuron, in order.
    pub open spec fn outputs(&self, xlen: nat, base: int) -> Seq<Value> {
        Seq::new(
            self.neurons().len(),
            |i: int|
                Value { id: self.neurons()[i].output(xlen, base + self.offset(xlen, i)) as usize },
        )
    }

    /// The nodes from `base` on hold the layer's forward pass over `x`: the
    /// forward pass of each neuron over the same `x`, one after the other.
    #[verifier::opaque]
    pub open spec fn forwarded<F: Fn(Prim, u64, u64) -> u64>(
        &self,
        unit: F,
        nodes: Seq<NodeView>,
        x: Seq<Value>,
        base: int,
    ) -> bool {
        forall|i: int|
            0 <= i < self.neurons().len() ==> (#[trigger] self.neurons()[i]).forwarded(
                unit,
                nodes,
                x,
                base + self.offset(x.len(), i),
            )
    }

    /// Computes the output of every neuron on the inputs `x`, appending the
    /// nodes of the computation to the graph, and returns the output nodes,
    /// one for each neuron and each of them appended by this call.
    #[verifier::rlimit(30)]
    pub fn forward<F: Fn(Prim, u64, u64) -> u64>(
        &self,
        x: &[Value],
        g: &mut Graph<F>,
    ) -> (outs: Vec<Value>)
        requires
            old(g).wf(),
            all_within(self.params(), old(g)@),
            all_within(x@, old(g)@),
        ensures
            final(g).wf(),
            final(g).unit() == old(g).unit(),
            final(g)@.len() == old(g)@.len() + self.span(x@.len()),
            extends(old(g)@, final(g)@),
            self.forwarded(final(g).unit(), final(g)@, x@, old(g)@.len() as int),
            outs@ == self.outputs(x@.len(), old(g)@.len() as int),
            outs@.len() == self.neurons().len(),
            forall|i: int|
                0 <= i < outs@.len() ==> (#[trigger] outs@[i]).id == self.neurons()[i].output(
                    x@.len(),
                    old(g)@.len() + self.offset(x@.len(), i),
                ),
            forall|i: int|
                0 <= i < outs@.len() ==> old(g)@.len() <= (#[trigger] outs@[i]).id < final(g)@.len(),
    {
        let ghost base = g@.len() as int;
        let ghost xlen = x@.len();
        let mut outs: Vec<Value> = Vec::new();
        let mut i: usize = 0;
        proof {
            lemma_gathered_within(self.neurons(), old(g)@);
        }
        while i < self.neurons.len()
            invariant
                g.wf(),
                g.unit() == old(g).unit(),
                i <= self.neurons().len(),
                base == old(g)@.len(),
                xlen == x@.len(),
                g@.len() == base + self.offset(xlen, i as int),
                extends(old(g)@, g@),
                forall|k: int|
                    0 <= k < self.neurons().len() ==> all_within(
                        (#[trigger] self.neurons()[k]).params(),
                        old(g)@,
                    ),
                all_within(x@, old(g)@),
                outs@.len() == i,
                forall|k: int|
                    0 <= k < i ==> (#[trigger] outs@[k]).id == self.neurons()[k].output(
                        xlen,
                        base + self.offset(xlen, k),
                    ),
                forall|k: int| 0 <= k < i ==> base <= (#[trigger] outs@[k]).id < g@.len(),
                forall|k: int|
                    0 <= k < i ==> (#[trigger] self.neurons()[k]).forwarded(
                        g.unit(),
                        g@,
                        x@,
                        base + self.offset(xlen, k),
                    ),
            decreases self.neurons().len() - i,
        {
            let ghost held = g@;
            let out = self.neurons[i].forward(x, g);
            outs.push(out);
            proof {
                self.lemma_offset_grows(xlen, 0, i as int);
                lemma_layer_forward_step(*self, g.unit(), held, g@, x@, base, i as int);
            }
            i += 1;
        }
        proof {
            reveal(Layer::forwarded);
        }
        outs
    }
}

impl Module for Layer {
    /// The parameters of each neuron, in the order of the neurons.
    open spec fn params(&self) -> Seq<Value> {
        gathered(self.neurons())
    }

    fn parameters(&self) -> (r: Vec<Value>) {
        let mut params: Vec<Value> = Vec::new();
        let mut i: usize = 0;
        while i < self.neurons.len()
            invariant
                i <= self.neurons().len(),
                params@ == gathered(self.neurons().take(i as int)),
            decreases self.neurons().len() - i,
        {
            let mut more = self.neurons[i].parameters();
            params.append(&mut more);
            proof {
                let done = self.neurons().take(i + 1);
                assert(done.drop_last() =~= self.neurons().take(i as int));
            }
            i += 1;
        }
        proof {
            assert(self.neurons().take(self.neurons().len() as int) =~= self.neurons());
        }
        params
    }
}

/// A layer as it was made stays what it is when the graph grows.
pub proof fn lemma_layer_made_stays<S: Fn() -> u64>(
    layer: Layer,
    sample: S,
    before: Seq<NodeView>,
    after: Seq<NodeView>,
    base: int,
    nin: nat,
    nout: nat,
    nonlin: bool,
)
    requires
        extends(before, after),
        0 <= base,
        base + nout * (nin + 1) <= before.len(),
        layer.made(sample, before, base, nin, nout, nonlin),
    ensures
        layer.made(sample, after, base, nin, nout, nonlin),
{
    assert forall|i: int| 0 <= i < nout implies (#[trigger] layer.neurons()[i]).made(
        sample,
        after,
        base + i * (nin + 1),
        nin,
        nonlin,
    ) by {
        let from = base + i * (nin + 1);
        assert(layer.neurons()[i].made(sample, before, from, nin, nonlin));
        assert((i + 1) * (nin + 1) == i * (nin + 1) + (nin + 1)) by (nonlinear_arith);
        assert((i + 1) * (nin + 1) <= nout * (nin + 1)) by (nonlinear_arith)
            requires
                i + 1 <= nout,
                nin + 1 >= 0,
        ;
        assert(i * (nin + 1) >= 0) by (nonlinear_arith)
            requires
                i >= 0,
                nin + 1 >= 0,
        ;
        assert forall|n: int| from <= n < from + nin implies fresh_leaf(
            after,
            n,
            indexed_label("w"@, (n - from) as nat),
        ) && call_ensures(sample, (), (#[trigger] after[n]).value) by {}
    }
}

/// A layer's forward pass stays what it is when the graph grows.
pub proof fn lemma_layer_forwarded_stays<F: Fn(Prim, u64, u64) -> u64>(
    layer: Layer,
    unit: F,
    before: Seq<NodeView>,
    after: Seq<NodeView>,
    x: Seq<Value>,
    base: int,
)
    requires
        acyclic(before),
        extends(before, after),
        0 <= base,
        base + layer.span(x.len()) <= before.len(),
        layer.forwarded(unit, before, x, base),
    ensures
        layer.forwarded(unit, after, x, base),
{
    reveal(Layer::forwarded);
    assert forall|i: int| 0 <= i < layer.neurons().len() implies (
    #[trigger] layer.neurons()[i]).forwarded(unit, after, x, base + layer.offset(x.len(), i)) by {
        layer.lemma_offset_grows(x.len(), i, i);
        layer.lemma_offset_grows(x.len(), i + 1, layer.neurons().len() as int);
        let from = base + layer.offset(x.len(), i);
        lemma_forwarded_stays(layer.neurons()[i], unit, before, after, x, from);
    }
}

} // verus!
