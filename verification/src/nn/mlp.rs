//! A multi-layer perceptron.

use vstd::prelude::*;
use crate::backward::backpropagated;
use crate::engine::{all_within, joins, wraps, Value};
use crate::graph::{acyclic, extends, Graph, NodeView, Op};
use crate::nn::layer::{lemma_layer_forwarded_stays, lemma_layer_made_stays, Layer};
use crate::nn::{descended, zeroed, Module};
use crate::scalar::{Prim, TWO};

verus! {

/// The parameters of a stack of layers: those of the first layer, then
/// those of the second, and so on.
pub open spec fn collected(layers: Seq<Layer>) -> Seq<Value>
    decreases layers.len(),
{
    if layers.len() == 0 {
        Seq::empty()
    } else {
        collected(layers.drop_last()) + layers.last().params()
    }
}

/// The collected parameters lie within a graph exactly when each layer's
/// own parameters do.
pub proof fn lemma_collected_within(layers: Seq<Layer>, nodes: Seq<NodeView>)
    ensures
        all_within(collected(layers), nodes) <==> (forall|k: int|
            0 <= k < layers.len() ==> all_within((#[trigger] layers[k]).params(), nodes)),
    decreases layers.len(),
{
    if layers.len() > 0 {
        let front = layers.drop_last();
        let last = layers.last();
        lemma_collected_within(front, nodes);
        let all = collected(layers);
        let head = collected(front);
        if all_within(all, nodes) {
            assert forall|k: int| 0 <= k < layers.len() implies all_within(
                (#[trigger] layers[k]).params(),
                nodes,
            ) by {
                if k < front.len() {
                    assert forall|i: int| 0 <= i < head.len() implies (#[trigger] head[i]).id
                        < nodes.len() by {
                        assert(all[i] == head[i]);
                    }
                    assert(front[k] == layers[k]);
                } else {
                    assert forall|i: int| 0 <= i < last.params().len() implies (
                    #[trigger] last.params()[i]).id < nodes.len() by {
                        assert(all[head.len() + i] == last.params()[i]);
                    }
                }
            }
        }
        if forall|k: int|
            0 <= k < layers.len() ==> all_within((#[trigger] layers[k]).params(), nodes) {
            assert forall|k: int| 0 <= k < front.len() implies all_within(
                (#[trigger] front[k]).params(),
                nodes,
            ) by {}
            assert forall|i: int| 0 <= i < all.len() implies (#[trigger] all[i]).id
                < nodes.len() by {}
        }
    }
}

/// The number of inputs of the `k`-th layer of a perceptron of `nin` inputs
/// whose layers have `nouts` neurons: `nin` for the first layer, the size of
/// the layer before for every other.
pub open spec fn layer_width(nin: nat, nouts: Seq<usize>, k: int) -> nat {
    if k <= 0 {
        nin
    } else {
        nouts[k - 1] as nat
    }
}

/// How many nodes the first `k` layers of such a perceptron take when they
/// are made: for each neuron its weights and its bias.
pub open spec fn layer_start(nin: nat, nouts: Seq<usize>, k: int) -> int
    decreases k,
{
    if k <= 0 {
        0
    } else {
        layer_start(nin, nouts, k - 1) + nouts[k - 1] * (layer_width(nin, nouts, k - 1) + 1)
    }
}

/// The count of nodes taken starts at zero and never falls from one layer
/// to the next.
pub proof fn lemma_layer_start_grows(nin: nat, nouts: Seq<usize>, j: int, k: int)
    requires
        0 <= j <= k,
    ensures
        0 <= layer_start(nin, nouts, j) <= layer_start(nin, nouts, k),
        layer_start(nin, nouts, j + 1) == layer_start(nin, nouts, j) + nouts[j] * (layer_width(
            nin,
            nouts,
            j,
        ) + 1),
    decreases k,
{
    if j < k {
        lemma_layer_start_grows(nin, nouts, j, k - 1);
        assert(nouts[k - 1] * (layer_width(nin, nouts, k - 1) + 1) >= 0) by (nonlinear_arith)
            requires
                nouts[k - 1] >= 0,
                layer_width(nin, nouts, k - 1) + 1 >= 0,
        ;
    } else if j > 0 {
        lemma_layer_start_grows(nin, nouts, j - 1, j - 1);
        assert(nouts[j - 1] * (layer_width(nin, nouts, j - 1) + 1) >= 0) by (nonlinear_arith)
            requires
                nouts[j - 1] >= 0,
                layer_width(nin, nouts, j - 1) + 1 >= 0,
        ;
    }
}

/// A multi-layer perceptron: layers in a row, each reading what the one
/// before it gives.
pub struct MLP {
    layers: Vec<Layer>,
}

impl MLP {
    /// The layers, in order.
    pub closed spec fn layers(&self) -> Seq<Layer> {
        self.layers@
    }

    /// The perceptron is the one that `new` lays out from node `base` on:
    /// one layer for each entry of `nouts`, each with as many inputs as the
    /// layer before it has neurons, and every layer but the last nonlinear.
    pub open spec fn made<S: Fn() -> u64>(
        &self,
        sample: S,
        nodes: Seq<NodeView>,
        base: int,
        nin: nat,
        nouts: Seq<usize>,
    ) -> bool {
        &&& self.layers().len() == nouts.len()
        &&& forall|k: int|
            0 <= k < nouts.len() ==> (#[trigger] self.layers()[k]).made(
                sample,
                nodes,
                base + layer_start(nin, nouts, k),
                layer_width(nin, nouts, k),
                nouts[k] as nat,
                k != nouts.len() - 1,
            )
    }

    /// Makes a perceptron of `nin` inputs whose layers have `nouts` neurons.
    pub fn new<F: Fn(Prim, u64, u64) -> u64, S: Fn() -> u64>(
        nin: usize,
        nouts: &[usize],
        g: &mut Graph<F>,
        sample: &S,
    ) -> (mlp: MLP)
        requires
            old(g).wf(),
            call_requires(*sample, ()),
        ensures
            final(g).wf(),
            final(g).unit() == old(g).unit(),
            final(g)@.len() == old(g)@.len() + layer_start(nin as nat, nouts@, nouts@.len() as int),
            extends(old(g)@, final(g)@),
            mlp.made(*sample, final(g)@, old(g)@.len() as int, nin as nat, nouts@),
            all_within(mlp.params(), final(g)@),
    {
        let ghost base = g@.len() as int;
        let mut layers: Vec<Layer> = Vec::new();
        let mut width = nin;
        let mut k: usize = 0;
        while k < nouts.len()
            invariant
                g.wf(),
                g.unit() == old(g).unit(),
                call_requires(*sample, ()),
                k <= nouts@.len(),
                base == old(g)@.len(),
                width == layer_width(nin as nat, nouts@, k as int),
                g@.len() == base + layer_start(nin as nat, nouts@, k as int),
                extends(old(g)@, g@),
                layers@.len() == k,
                forall|j: int|
                    0 <= j < k ==> (#[trigger] layers@[j]).made(
                        *sample,
                        g@,
                        base + layer_start(nin as nat, nouts@, j),
                        layer_width(nin as nat, nouts@, j),
                        nouts@[j] as nat,
                        j != nouts@.len() - 1,
                    ),
                forall|j: int| 0 <= j < k ==> all_within((#[trigger] layers@[j]).params(), g@),
            decreases nouts@.len() - k,
        {
            let ghost held = g@;
            let ghost stack = layers@;
            let last = k + 1 == nouts.len();
            let layer = Layer::new(width, nouts[k], !last, g, sample);
            layers.push(layer);
            proof {
                assert forall|j: int| 0 <= j < k + 1 implies (#[trigger] layers@[j]).made(
                    *sample,
                    g@,
                    base + layer_start(nin as nat, nouts@, j),
                    layer_width(nin as nat, nouts@, j),
                    nouts@[j] as nat,
                    j != nouts@.len() - 1,
                ) by {
                    if j < k {
                        lemma_layer_start_grows(nin as nat, nouts@, j, j);
                        lemma_layer_start_grows(nin as nat, nouts@, j + 1, k as int);
                        lemma_layer_made_stays(
                            stack[j],
                            *sample,
                            held,
                            g@,
                            base + layer_start(nin as nat, nouts@, j),
                            layer_width(nin as nat, nouts@, j),
                            nouts@[j] as nat,
                            j != nouts@.len() - 1,
                        );
                    }
                }
                assert forall|j: int| 0 <= j < k + 1 implies all_within(
                    (#[trigger] layers@[j]).params(),
                    g@,
                ) by {}
            }
            width = nouts[k];
            k += 1;
        }
        proof {
            lemma_collected_within(layers@, g@);
        }
        MLP { layers }
    }

    /// The number of inputs that the `k`-th layer reads when the perceptron
    /// reads `xlen`: `xlen` for the first layer, the number of neurons of
    /// the layer before for every other.
    pub open spec fn width(&self, xlen: nat, k: int) -> nat {
        if k <= 0 {
            xlen
        } else {
            self.layers()[k - 1].neurons().len()
        }
    }

    /// How many nodes the first `k` layers append in a forward pass over
    /// `xlen` inputs.
    pub open spec fn offset(&self, xlen: nat, k: int) -> int
        decreases k,
    {
        if k <= 0 {
            0
        } else {
            self.offset(xlen, k - 1) + self.layers()[k - 1].span(self.width(xlen, k - 1))
        }
    }

    /// The count of appended nodes starts at zero and never falls from one
    /// layer to the next.
    pub proof fn lemma_offset_grows(&self, xlen: nat, j: int, k: int)
        requires
            0 <= j <= k,
        ensures
            0 <= self.offset(xlen, j) <= self.offset(xlen, k),
            self.offset(xlen, j + 1) == self.offset(xlen, j) + self.layers()[j].span(
                self.width(xlen, j),
            ),
        decreases k,
    {
        if j < k {
            self.lemma_offset_grows(xlen, j, k - 1);
            let layer = self.layers()[k - 1];
            layer.lemma_offset_grows(self.width(xlen, k - 1), 0, layer.neurons().len() as int);
        } else if j > 0 {
            self.lemma_offset_grows(xlen, j - 1, j - 1);
            let layer = self.layers()[j - 1];
            layer.lemma_offset_grows(self.width(xlen, j - 1), 0, layer.neurons().len() as int);
        }
    }

    /// The nodes that the `k`-th layer reads in a forward pass over `x` laid
    /// out from node `base` on: `x` itself for the first layer, the outputs
    /// of the layer before for every other. With `k` the number of layers,
    /// these are the nodes that the pass returns.
    pub open spec fn inputs(&self, x: Seq<Value>, base: int, k: int) -> Seq<Value> {
        if k <= 0 {
            x
        } else {
            self.layers()[k - 1].outputs(
                self.width(x.len(), k - 1),
                base + self.offset(x.len(), k - 1),
            )
        }
    }

    /// The node that the `i`-th neuron of the layer before the `k`-th gives,
    /// for `k` at least one, in a forward pass over `xlen` inputs laid out
    /// from node `base` on: the index of the `i`-th of the nodes that the
    /// `k`-th layer reads.
    pub open spec fn output(&self, xlen: nat, base: int, k: int, i: int) -> int {
        let layer = self.layers()[k - 1];
        let width = self.width(xlen, k - 1);
        layer.neurons()[i].output(width, base + self.offset(xlen, k - 1) + layer.offset(width, i))
    }

    /// The nodes from `base` on hold the perceptron's forward pass over `x`:
    /// the forward pass of each layer over what the layer before gives, one
    /// after the other.
    pub open spec fn forwarded<F: Fn(Prim, u64, u64) -> u64>(
        &self,
        unit: F,
        nodes: Seq<NodeView>,
        x: Seq<Value>,
        base: int,
    ) -> bool {
        forall|k: int|
            0 <= k < self.layers().len() ==> (#[trigger] self.layers()[k]).forwarded(
                unit,
                nodes,
                self.inputs(x, base, k),
                base + self.offset(x.len(), k),
            )
    }

    /// Threads the inputs `x` through the layers in order, appending the
    /// nodes of the computation to the graph, and returns for each layer
    /// what it reads and, last, what the last layer gives.
    pub fn layer_outputs<F: Fn(Prim, u64, u64) -> u64>(
        &self,
        x: Vec<Value>,
        g: &mut Graph<F>,
    ) -> (outputs: Vec<Vec<Value>>)
        requires
            old(g).wf(),
            all_within(self.params(), old(g)@),
            all_within(x@, old(g)@),
        ensures
            final(g).wf(),
            final(g).unit() == old(g).unit(),
            final(g)@.len() == old(g)@.len() + self.offset(x@.len(), self.layers().len() as int),
            extends(old(g)@, final(g)@),
            self.forwarded(final(g).unit(), final(g)@, x@, old(g)@.len() as int),
            outputs@.len() == self.layers().len() + 1,
            forall|k: int|
                0 <= k <= self.layers().len() ==> (#[trigger] outputs@[k])@ == self.inputs(
                    x@,
                    old(g)@.len() as int,
                    k,
                ),
            forall|k: int|
                0 <= k <= self.layers().len() ==> all_within((#[trigger] outputs@[k])@, final(g)@),
            forall|k: int, i: int|
                1 <= k <= self.layers().len() && 0 <= i < outputs@[k]@.len() ==> (
                #[trigger] outputs@[k]@[i]).id == self.output(x@.len(), old(g)@.len() as int, k, i)
                    && old(g)@.len() <= outputs@[k]@[i].id,
    {
        let ghost base = g@.len() as int;
        let ghost xlen = x@.len();
        let mut outputs: Vec<Vec<Value>> = Vec::new();
        let mut current = x;
        outputs.push(current.clone());
        let mut k: usize = 0;
        proof {
            lemma_collected_within(self.layers(), old(g)@);
        }
        while k < self.layers.len()
            invariant
                g.wf(),
                g.unit() == old(g).unit(),
                k <= self.layers().len(),
                base == old(g)@.len(),
                xlen == x@.len(),
                g@.len() == base + self.offset(xlen, k as int),
                extends(old(g)@, g@),
                forall|j: int|
                    0 <= j < self.layers().len() ==> all_within(
                        (#[trigger] self.layers()[j]).params(),
                        old(g)@,
                    ),
                current@ == self.inputs(x@, base, k as int),
                current@.len() == self.width(xlen, k as int),
                all_within(current@, g@),
                outputs@.len() == k + 1,
                forall|j: int|
                    0 <= j <= k ==> (#[trigger] outputs@[j])@ == self.inputs(x@, base, j),
                forall|j: int| 0 <= j <= k ==> all_within((#[trigger] outputs@[j])@, g@),
                forall|j: int, i: int|
                    1 <= j <= k && 0 <= i < outputs@[j]@.len() ==> (#[trigger] outputs@[j]@[i]).id
                        == self.output(xlen, base, j, i) && base <= outputs@[j]@[i].id,
                forall|j: int|
                    0 <= j < k ==> (#[trigger] self.layers()[j]).forwarded(
                        g.unit(),
                        g@,
                        self.inputs(x@, base, j),
                        base + self.offset(xlen, j),
                    ),
            decreases self.layers().len() - k,
        {
            let ghost held = g@;
            let next = self.layers[k].forward(current.as_slice(), g);
            proof {
                assert forall|j: int| 0 <= j < k + 1 implies (
                #[trigger] self.layers()[j]).forwarded(
                    g.unit(),
                    g@,
                    self.inputs(x@, base, j),
                    base + self.offset(xlen, j),
                ) by {
                    if j < k {
                        self.lemma_offset_grows(xlen, j, j);
                        self.lemma_offset_grows(xlen, j + 1, k as int);
                        lemma_layer_forwarded_stays(
                            self.layers()[j],
                            g.unit(),
                            held,
                            g@,
                            self.inputs(x@, base, j),
                            base + self.offset(xlen, j),
                        );
                    }
                }
            }
            outputs.push(next.clone());
            current = next;
            proof {
                assert forall|j: int| 0 <= j <= k + 1 implies (#[trigger] outputs@[j])@
                    == self.inputs(x@, base, j) by {}
                assert forall|j: int| 0 <= j <= k + 1 implies all_within(
                    (#[trigger] outputs@[j])@,
                    g@,
                ) by {}
            }
            k += 1;
        }
        outputs
    }

    /// Threads the inputs `x` through the layers in order, appending the
    /// nodes of the computation to the graph, and returns what the last
    /// layer gives.
    pub fn forward<F: Fn(Prim, u64, u64) -> u64>(
        &self,
        x: Vec<Value>,
        g: &mut Graph<F>,
    ) -> (output: Vec<Value>)
        requires
            old(g).wf(),
            all_within(self.params(), old(g)@),
            all_within(x@, old(g)@),
        ensures
            final(g).wf(),
            final(g).unit() == old(g).unit(),
            final(g)@.len() == old(g)@.len() + self.offset(x@.len(), self.layers().len() as int),
            extends(old(g)@, final(g)@),
            self.forwarded(final(g).unit(), final(g)@, x@, old(g)@.len() as int),
            output@ == self.inputs(x@, old(g)@.len() as int, self.layers().len() as int),
            all_within(output@, final(g)@),
            output@.len() == self.width(x@.len(), self.layers().len() as int),
            self.layers().len() > 0 ==> forall|i: int|
                0 <= i < output@.len() ==> (#[trigger] output@[i]).id == self.output(
                    x@.len(),
                    old(g)@.len() as int,
                    self.layers().len() as int,
                    i,
                ) && old(g)@.len() <= output@[i].id,
    {
        let ghost base = g@.len() as int;
        let ghost xlen = x@.len();
        let ghost given = x@;
        let mut output = x;
        let mut k: usize = 0;
        proof {
            lemma_collected_within(self.layers(), old(g)@);
        }
        while k < self.layers.len()
            invariant
                g.wf(),
                g.unit() == old(g).unit(),
                k <= self.layers().len(),
                base == old(g)@.len(),
                xlen == given.len(),
                g@.len() == base + self.offset(xlen, k as int),
                extends(old(g)@, g@),
                forall|j: int|
                    0 <= j < self.layers().len() ==> all_within(
                        (#[trigger] self.layers()[j]).params(),
                        old(g)@,
                    ),
                output@ == self.inputs(given, base, k as int),
                output@.len() == self.width(xlen, k as int),
                all_within(output@, g@),
                k > 0 ==> forall|i: int|
                    0 <= i < output@.len() ==> (#[trigger] output@[i]).id == self.output(
                        xlen,
                        base,
                        k as int,
                        i,
                    ) && base <= output@[i].id,
                forall|j: int|
                    0 <= j < k ==> (#[trigger] self.layers()[j]).forwarded(
                        g.unit(),
                        g@,
                        self.inputs(given, base, j),
                        base + self.offset(xlen, j),
                    ),
            decreases self.layers().len() - k,
        {
            let ghost held = g@;
            let next = self.layers[k].forward(output.as_slice(), g);
            proof {
                assert forall|j: int| 0 <= j < k + 1 implies (
                #[trigger] self.layers()[j]).forwarded(
                    g.unit(),
                    g@,
                    self.inputs(given, base, j),
                    base + self.offset(xlen, j),
                ) by {
                    if j < k {
                        self.lemma_offset_grows(xlen, j, j);
                        self.lemma_offset_grows(xlen, j + 1, k as int);
                        lemma_layer_forwarded_stays(
                            self.layers()[j],
                            g.unit(),
                            held,
                            g@,
                            self.inputs(given, base, j),
                            base + self.offset(xlen, j),
                        );
                    }
                }
            }
            output = next;
            k += 1;
        }
        output
    }
}

/// A perceptron's forward pass stays what it is when the graph grows.
pub proof fn lemma_mlp_forwarded_stays<F: Fn(Prim, u64, u64) -> u64>(
    mlp: MLP,
    unit: F,
    before: Seq<NodeView>,
    after: Seq<NodeView>,
    x: Seq<Value>,
    base: int,
)
    requires
        acyclic(before),
        extends(before, after),
        0 <= base,
        base + mlp.offset(x.len(), mlp.layers().len() as int) <= before.len(),
        mlp.forwarded(unit, before, x, base),
    ensures
        mlp.forwarded(unit, after, x, base),
{
    assert forall|k: int| 0 <= k < mlp.layers().len() implies (
    #[trigger] mlp.layers()[k]).forwarded(
        unit,
        after,
        mlp.inputs(x, base, k),
        base + mlp.offset(x.len(), k),
    ) by {
        mlp.lemma_offset_grows(x.len(), k, k);
        mlp.lemma_offset_grows(x.len(), k + 1, mlp.layers().len() as int);
        lemma_layer_forwarded_stays(
            mlp.layers()[k],
            unit,
            before,
            after,
            mlp.inputs(x, base, k),
            base + mlp.offset(x.len(), k),
        );
    }
}

impl MLP {
    /// `after` is `before` once the perceptron has trained on one example:
    /// the forward pass over `x` is appended, then the squared difference of
    /// its first output and the target `y`; the parameters' gradients are
    /// set to zero; a backward pass runs from the squared difference,
    /// `loss`; and every parameter takes one step of gradient descent.
    pub open spec fn trained<F: Fn(Prim, u64, u64) -> u64>(
        &self,
        unit: F,
        before: Seq<NodeView>,
        x: Seq<Value>,
        y: Value,
        rate: u64,
        loss: Value,
        after: Seq<NodeView>,
    ) -> bool {
        let base = before.len() as int;
        let depth = self.layers().len() as int;
        let prediction = self.inputs(x, base, depth)[0];
        exists|built: Seq<NodeView>, sent: Seq<NodeView>|
            #![trigger descended(unit, sent, self.params(), rate, after), extends(before, built)]
            {
                &&& extends(before, built)
                &&& built.len() == base + self.offset(x.len(), depth) + 2
                &&& loss.id == built.len() - 1
                &&& self.forwarded(unit, built, x, base)
                &&& joins(unit, built, loss.id - 1, Op::Sub, prediction.id as int, y.id as int)
                &&& wraps(unit, built, loss.id as int, Op::Pow(TWO), loss.id - 1)
                &&& backpropagated(unit, zeroed(built, self.params()), loss.id, sent)
                &&& descended(unit, sent, self.params(), rate, after)
            }
    }

    /// Trains on one example: computes the prediction for `x`, takes the
    /// square of its difference from the target `y` as the loss, resets the
    /// parameters' gradients, runs a backward pass from the loss and lets
    /// every parameter take one step of gradient descent at the given rate.
    /// Returns the loss node. The perceptron has at least one output.
    pub fn train_step<F: Fn(Prim, u64, u64) -> u64>(
        &self,
        x: Vec<Value>,
        y: &Value,
        rate: u64,
        g: &mut Graph<F>,
    ) -> (loss: Value)
        requires
            old(g).wf(),
            all_within(self.params(), old(g)@),
            all_within(x@, old(g)@),
            y.within(old(g)),
            self.inputs(x@, old(g)@.len() as int, self.layers().len() as int).len() > 0,
        ensures
            final(g).wf(),
            final(g).unit() == old(g).unit(),
            final(g)@.len() == old(g)@.len() + self.offset(
                x@.len(),
                self.layers().len() as int,
            ) + 2,
            loss.id == final(g)@.len() - 1,
            self.trained(final(g).unit(), old(g)@, x@, *y, rate, loss, final(g)@),
    {
        let ghost base = g@.len() as int;
        let ghost given = x@;
        let output = self.forward(x, g);
        let ghost formed = g@;
        let prediction = output[0];
        let error = prediction.sub(y, g);
        let loss = error.pow(TWO, g);
        let ghost built = g@;
        proof {
            lemma_mlp_forwarded_stays(*self, g.unit(), formed, built, given, base);
        }
        self.zero_grad(g);
        loss.backward(g);
        self.update(rate, g);
        proof {
            assert(self.trained(g.unit(), old(g)@, given, *y, rate, loss, g@)) by {
                assert(extends(old(g)@, built));
            }
        }
        loss
    }
}

impl Module for MLP {
    /// The parameters of each layer, in the order of the layers.
    open spec fn params(&self) -> Seq<Value> {
        collected(self.layers())
    }

    fn parameters(&self) -> (r: Vec<Value>) {
        let mut params: Vec<Value> = Vec::new();
        let mut k: usize = 0;
        while k < self.layers.len()
            invariant
                k <= self.layers().len(),
                params@ == collected(self.layers().take(k as int)),
            decreases self.layers().len() - k,
        {
            let mut more = self.layers[k].parameters();
            params.append(&mut more);
            proof {
                let done = self.layers().take(k + 1);
                assert(done.drop_last() =~= self.layers().take(k as int));
            }
            k += 1;
        }
        proof {
            assert(self.layers().take(self.layers().len() as int) =~= self.layers());
        }
        params
    }
}

} // verus!
