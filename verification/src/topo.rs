//! The topological order of the nodes that a root depends on.
//!
//! The order is the depth-first postorder from the root: operands first,
//! left before right, each node once however many consumers it has.

use vstd::prelude::*;
use crate::engine::Value;
use crate::graph::{acyclic, node_ok, Graph, NodeView, Op};
use crate::scalar::Prim;

verus! {

/// The nodes that the walk from `v` adds to those already `seen`, in
/// postorder. A node already seen adds nothing.
pub open spec fn visit(nodes: Seq<NodeView>, v: usize, seen: Set<usize>) -> Seq<usize>
    decreases v,
{
    if v >= nodes.len() || seen.contains(v) {
        seq![]
    } else {
        let operands = nodes[v as int].operands;
        if operands.len() == 1 && operands[0] < v {
            visit(nodes, operands[0], seen).push(v)
        } else if operands.len() == 2 && operands[0] < v && operands[1] < v {
            let first = visit(nodes, operands[0], seen);
            let second = visit(nodes, operands[1], seen + first.to_set());
            (first + second).push(v)
        } else {
            seq![v]
        }
    }
}

/// The topological order of the graph below `root`.
pub open spec fn topo_order(nodes: Seq<NodeView>, root: usize) -> Seq<usize> {
    visit(nodes, root, Set::empty())
}

/// `c` stands in `order` at an index below `i`.
pub open spec fn earlier(order: Seq<usize>, i: int, c: usize) -> bool {
    exists|j: int| 0 <= j < i && #[trigger] order[j] == c
}

/// Every operand of every node of `order` stands at a strictly earlier
/// index than the node.
pub open spec fn operands_first(nodes: Seq<NodeView>, order: Seq<usize>) -> bool {
    forall|i: int, k: int|
        0 <= i < order.len() && 0 <= k < nodes[order[i] as int].operands.len() ==> earlier(
            order,
            i,
            #[trigger] nodes[order[i] as int].operands[k],
        )
}

/// `b` can be reached from `a` by following operands; every node reaches
/// itself.
pub open spec fn reaches(nodes: Seq<NodeView>, a: usize, b: usize) -> bool
    decreases a,
{
    a == b || (a < nodes.len() && exists|k: int|
        0 <= k < nodes[a as int].operands.len() && (#[trigger] nodes[a as int].operands[k]) < a
            && reaches(nodes, nodes[a as int].operands[k], b))
}

/// With each node of `seen`, its operands are in `seen`.
pub open spec fn settled(nodes: Seq<NodeView>, seen: Set<usize>) -> bool {
    forall|u: usize, k: int|
        seen.contains(u) && u < nodes.len() && 0 <= k < nodes[u as int].operands.len()
            ==> seen.contains(#[trigger] nodes[u as int].operands[k])
}

/// Every operand of every node of `order` is in `seen` or stands earlier in
/// `order`.
pub open spec fn operands_seen_or_first(
    nodes: Seq<NodeView>,
    order: Seq<usize>,
    seen: Set<usize>,
) -> bool {
    forall|i: int, k: int|
        0 <= i < order.len() && 0 <= k < nodes[order[i] as int].operands.len() ==> {
            let c = #[trigger] nodes[order[i] as int].operands[k];
            seen.contains(c) || earlier(order, i, c)
        }
}

/// What one walk adds: nodes no greater than its start, none seen before and
/// none twice, each after its operands; and what has been seen stays
/// settled.
pub proof fn lemma_visit(nodes: Seq<NodeView>, v: usize, seen: Set<usize>)
    requires
        acyclic(nodes),
        v < nodes.len(),
        settled(nodes, seen),
    ensures
        forall|i: int|
            0 <= i < visit(nodes, v, seen).len() ==> (#[trigger] visit(nodes, v, seen)[i]) <= v,
        forall|i: int|
            0 <= i < visit(nodes, v, seen).len() ==> !seen.contains(
                #[trigger] visit(nodes, v, seen)[i],
            ),
        visit(nodes, v, seen).no_duplicates(),
        settled(nodes, seen + visit(nodes, v, seen).to_set()),
        (seen + visit(nodes, v, seen).to_set()).contains(v),
        operands_seen_or_first(nodes, visit(nodes, v, seen), seen),
        !seen.contains(v) ==> visit(nodes, v, seen).len() > 0 && visit(nodes, v, seen).last() == v,
    decreases v,
{
    let out = visit(nodes, v, seen);
    assert(node_ok(nodes, v as int));
    let operands = nodes[v as int].operands;
    if seen.contains(v) {
        assert(seen + out.to_set() =~= seen);
    } else if operands.len() == 1 {
        let a = operands[0];
        let first = visit(nodes, a, seen);
        lemma_visit(nodes, a, seen);
        assert(out == first.push(v));
        assert(out.no_duplicates());
        let total = seen + out.to_set();
        assert forall|x: usize|
            total.contains(x) <==> (seen + first.to_set()).contains(x) || x == v by {
            if out.contains(x) {
                let i = choose|i: int| 0 <= i < out.len() && out[i] == x;
                if i < first.len() {
                    assert(first[i] == x);
                    assert(first.contains(x));
                }
            }
            if first.contains(x) {
                let i = choose|i: int| 0 <= i < first.len() && first[i] == x;
                assert(out[i] == x);
            }
            if x == v {
                assert(out[first.len() as int] == v);
            }
        }
        assert(settled(nodes, total)) by {
            assert forall|u: usize, k: int|
                total.contains(u) && u < nodes.len() && 0 <= k < nodes[u as int].operands.len()
                implies total.contains(#[trigger] nodes[u as int].operands[k]) by {
                if u == v {
                    assert(k == 0);
                }
            }
        }
        assert(operands_seen_or_first(nodes, out, seen)) by {
            assert forall|i: int, k: int|
                0 <= i < out.len() && 0 <= k < nodes[out[i] as int].operands.len() implies {
                let c = #[trigger] nodes[out[i] as int].operands[k];
                seen.contains(c) || earlier(out, i, c)
            } by {
                let c = nodes[out[i] as int].operands[k];
                if i < first.len() {
                    assert(out[i] == first[i]);
                    if !seen.contains(c) {
                        let j = choose|j: int| 0 <= j < i && first[j] == c;
                        assert(out[j] == c);
                    }
                } else {
                    if !seen.contains(c) {
                        let j = choose|j: int| 0 <= j < first.len() && first[j] == c;
                        assert(out[j] == c);
                    }
                }
            }
        }
    } else if operands.len() == 2 {
        let a = operands[0];
        let b = operands[1];
        let first = visit(nodes, a, seen);
        lemma_visit(nodes, a, seen);
        let middle = seen + first.to_set();
        let second = visit(nodes, b, middle);
        lemma_visit(nodes, b, middle);
        assert(out == (first + second).push(v));
        let both = first + second;
        assert forall|i: int, j: int|
            0 <= i < both.len() && 0 <= j < both.len() && i != j implies both[i] != both[j] by {
            if j < first.len() && i >= first.len() {
                assert(first.contains(first[j]));
                assert(both[i] == second[i - first.len()]);
            }
        }
        assert forall|i: int| 0 <= i < both.len() implies #[trigger] both[i] < v by {}
        assert forall|i: int| 0 <= i < out.len() implies !seen.contains(#[trigger] out[i]) by {}
        let total = seen + out.to_set();
        assert forall|x: usize|
            total.contains(x) <==> (middle + second.to_set()).contains(x) || x == v by {
            if out.contains(x) {
                let i = choose|i: int| 0 <= i < out.len() && out[i] == x;
                if i < first.len() {
                    assert(first.contains(x));
                }
            }
            if first.contains(x) {
                let i = choose|i: int| 0 <= i < first.len() && first[i] == x;
                assert(out[i] == x);
            }
            if second.contains(x) {
                let i = choose|i: int| 0 <= i < second.len() && second[i] == x;
                assert(out[first.len() + i] == x);
            }
            if x == v {
                assert(out[both.len() as int] == v);
            }
        }
        assert(settled(nodes, total)) by {
            assert forall|u: usize, k: int|
                total.contains(u) && u < nodes.len() && 0 <= k < nodes[u as int].operands.len()
                implies total.contains(#[trigger] nodes[u as int].operands[k]) by {}
        }
        assert(operands_seen_or_first(nodes, out, seen)) by {
            assert forall|i: int, k: int|
                0 <= i < out.len() && 0 <= k < nodes[out[i] as int].operands.len() implies {
                let c = #[trigger] nodes[out[i] as int].operands[k];
                seen.contains(c) || earlier(out, i, c)
            } by {
                let c = nodes[out[i] as int].operands[k];
                if seen.contains(c) {
                } else if i < first.len() {
                } else if i < both.len() {
                    let h = i - first.len();
                    if middle.contains(c) {
                    } else {
                        let j = choose|j: int| 0 <= j < h && second[j] == c;
                        assert(out[first.len() + j] == c);
                    }
                }
            }
        }
    } else {
        let total = seen + out.to_set();
        assert forall|x: usize| total.contains(x) <==> seen.contains(x) || x == v by {}
    }
}

/// The topological order is valid: it holds no node twice and only nodes of
/// the graph, every operand of a node of the order stands at a strictly
/// earlier index than the node, and the root comes last.
pub proof fn lemma_topo_order_valid(nodes: Seq<NodeView>, root: usize)
    requires
        acyclic(nodes),
        root < nodes.len(),
    ensures
        operands_first(nodes, topo_order(nodes, root)),
        topo_order(nodes, root).no_duplicates(),
        forall|i: int|
            0 <= i < topo_order(nodes, root).len() ==> (#[trigger] topo_order(nodes, root)[i])
                <= root,
        topo_order(nodes, root).len() > 0,
        topo_order(nodes, root).last() == root,
{
    lemma_visit(nodes, root, Set::empty());
}

/// A settled set that holds a node holds every node that the node reaches.
pub proof fn lemma_settled_holds_reached(nodes: Seq<NodeView>, seen: Set<usize>, a: usize, b: usize)
    requires
        settled(nodes, seen),
        seen.contains(a),
        reaches(nodes, a, b),
    ensures
        seen.contains(b),
    decreases a,
{
    if a != b {
        let k = choose|k: int|
            0 <= k < nodes[a as int].operands.len() && (#[trigger] nodes[a as int].operands[k]) < a
                && reaches(nodes, nodes[a as int].operands[k], b);
        lemma_settled_holds_reached(nodes, seen, nodes[a as int].operands[k], b);
    }
}

/// Every node that a walk adds is reached from the walk's start.
pub proof fn lemma_visit_reaches(nodes: Seq<NodeView>, v: usize, seen: Set<usize>, x: usize)
    requires
        visit(nodes, v, seen).contains(x),
    ensures
        reaches(nodes, v, x),
    decreases v,
{
    let out = visit(nodes, v, seen);
    let i = choose|i: int| 0 <= i < out.len() && out[i] == x;
    let operands = nodes[v as int].operands;
    if x != v {
        if operands.len() == 1 && operands[0] < v {
            lemma_visit_reaches(nodes, operands[0], seen, x);
        } else if operands.len() == 2 && operands[0] < v && operands[1] < v {
            let first = visit(nodes, operands[0], seen);
            if i < first.len() {
                lemma_visit_reaches(nodes, operands[0], seen, x);
            } else {
                lemma_visit_reaches(nodes, operands[1], seen + first.to_set(), x);
            }
        }
    }
}

/// The topological order holds exactly the nodes that the root reaches.
pub proof fn lemma_topo_order_reach(nodes: Seq<NodeView>, root: usize, x: usize)
    requires
        acyclic(nodes),
        root < nodes.len(),
    ensures
        topo_order(nodes, root).contains(x) <==> reaches(nodes, root, x),
{
    let order = topo_order(nodes, root);
    if order.contains(x) {
        lemma_visit_reaches(nodes, root, Set::empty(), x);
    }
    if reaches(nodes, root, x) {
        lemma_visit(nodes, root, Set::empty());
        lemma_settled_holds_reached(nodes, Set::<usize>::empty() + order.to_set(), root, x);
    }
}

/// The indices that a sequence of handles names.
pub open spec fn ids(handles: Seq<Value>) -> Seq<usize> {
    handles.map_values(|v: Value| v.id)
}

/// The set of indices whose flag is raised.
pub open spec fn marked(flags: Seq<bool>) -> Set<usize> {
    Set::new(|i: usize| i < flags.len() && flags[i as int])
}

/// Walks from `v`, appending to `order` the nodes that were not yet marked
/// and marking them.
fn walk<F: Fn(Prim, u64, u64) -> u64>(
    g: &Graph<F>,
    v: usize,
    visited: &mut Vec<bool>,
    order: &mut Vec<Value>,
)
    requires
        g.wf(),
        v < g@.len(),
        old(visited)@.len() == g@.len(),
    ensures
        final(visited)@.len() == g@.len(),
        ids(final(order)@) == ids(old(order)@) + visit(g@, v, marked(old(visited)@)),
        marked(final(visited)@) == marked(old(visited)@) + visit(
            g@,
            v,
            marked(old(visited)@),
        ).to_set(),
    decreases v,
{
    let ghost seen = marked(visited@);
    let ghost before = ids(order@);
    if visited[v] {
        return ;
    }
    proof {
        assert(node_ok(g@, v as int));
    }
    let op = g.op_at(v);
    match op {
        Op::Leaf => {},
        Op::Pow(_) | Op::Tanh | Op::Relu => {
            let a = g.lhs_at(v);
            walk(g, a, visited, order);
        },
        Op::Add | Op::Sub | Op::Mul | Op::Div => {
            let a = g.lhs_at(v);
            let b = g.rhs_at(v);
            walk(g, a, visited, order);
            walk(g, b, visited, order);
        },
    }
    let ghost inner = marked(visited@);
    let ghost below = ids(order@);
    visited.set(v, true);
    order.push(Value { id: v });
    proof {
        let out = visit(g@, v, seen);
        assert(ids(order@) =~= below.push(v));
        assert(out.len() > 0 && out.last() == v && before + out.drop_last() == below
            && inner == seen + out.drop_last().to_set()) by {
            let operands = g@[v as int].operands;
            if operands.len() == 1 {
                let first = visit(g@, operands[0], seen);
                assert(out.drop_last() =~= first);
            } else if operands.len() == 2 {
                let first = visit(g@, operands[0], seen);
                let second = visit(g@, operands[1], seen + first.to_set());
                assert(out.drop_last() =~= first + second);
                let both = first + second;
                assert(seen + both.to_set() =~= (seen + first.to_set()) + second.to_set()) by {
                    assert forall|x: usize|
                        both.contains(x) <==> first.contains(x) || second.contains(x) by {
                        if first.contains(x) {
                            let i = choose|i: int| 0 <= i < first.len() && first[i] == x;
                            assert(both[i] == x);
                        }
                        if second.contains(x) {
                            let i = choose|i: int| 0 <= i < second.len() && second[i] == x;
                            assert(both[first.len() + i] == x);
                        }
                    }
                }
            }
        }
        assert(seen + out.to_set() =~= (seen + out.drop_last().to_set()).insert(v)) by {
            assert forall|x: usize| out.contains(x) <==> out.drop_last().contains(x) || x == v by {
                if out.contains(x) {
                    let i = choose|i: int| 0 <= i < out.len() && out[i] == x;
                    if i < out.len() - 1 {
                        assert(out.drop_last()[i] == x);
                    }
                }
            }
        }
    }
}

impl Value {
    /// The topological order of the nodes that this node depends on, itself
    /// included and last: each node once, and every operand at a strictly
    /// earlier index than the nodes that consume it.
    pub fn build_topo<F: Fn(Prim, u64, u64) -> u64>(&self, g: &Graph<F>) -> (order: Vec<Value>)
        requires
            g.wf(),
            self.within(g),
        ensures
            ids(order@) == topo_order(g@, self.id),
            operands_first(g@, ids(order@)),
            ids(order@).no_duplicates(),
            order@.len() > 0,
            order@.last() == *self,
            forall|i: int| 0 <= i < order@.len() ==> (#[trigger] order@[i]).id <= self.id,
    {
        let n = g.len();
        let mut visited: Vec<bool> = Vec::new();
        let mut i: usize = 0;
        while i < n
            invariant
                i <= n,
                visited@.len() == i,
                forall|j: int| 0 <= j < i ==> !(#[trigger] visited@[j]),
            decreases n - i,
        {
            visited.push(false);
            i += 1;
        }
        let mut order: Vec<Value> = Vec::new();
        proof {
            assert(marked(visited@) =~= Set::<usize>::empty());
        }
        walk(g, self.id, &mut visited, &mut order);
        proof {
            lemma_topo_order_valid(g@, self.id);
            assert forall|i: int| 0 <= i < order@.len() implies (#[trigger] order@[i]).id
                <= self.id by {
                assert(ids(order@)[i] == order@[i].id);
            }
        }
        order
    }
}

} // verus!
