//! The executable graph: fragments frozen into a dense array, with one value
//! and one gradient per node.

use vstd::prelude::*;
use crate::builder::{
    as_map, increasing, lemma_as_map_entry, lemma_as_map_key, merge, topological, GraphBuilder,
};
use crate::node::{Data, GraphBuilderNode, Node, NodeId, Operation, UnsupportedOperation};
use crate::scalar::{Arithmetic, Model};

verus! {

/// The nodes of all the fragments, by handle. Where several fragments hold a
/// handle, the node of the last of them is kept.
pub open spec fn union_of<T>(graphs: Seq<&GraphBuilder<T>>) -> Map<NodeId, Node<T>>
    decreases graphs.len(),
{
    if graphs.len() == 0 {
        Map::empty()
    } else {
        union_of(graphs.drop_last()).union_prefer_right(graphs.last()@)
    }
}

/// Every handle below a handle of `m` is a handle of `m` too.
pub open spec fn dense<T>(m: Map<NodeId, Node<T>>) -> bool {
    forall|id: NodeId, below: NodeId|
        #![trigger m.contains_key(id), m.contains_key(below)]
        m.contains_key(id) && below.0 < id.0 ==> m.contains_key(below)
}

/// The roots of the fragments, in order.
pub open spec fn roots_of<T>(graphs: Seq<&GraphBuilder<T>>) -> Seq<NodeId> {
    graphs.map_values(|g: &GraphBuilder<T>| g.root)
}

/// The fragments can be frozen: together they hold every handle from zero up
/// to their greatest, and the root of each.
pub open spec fn freezable<T>(graphs: Seq<&GraphBuilder<T>>) -> bool {
    &&& dense(union_of(graphs))
    &&& forall|k: int| 0 <= k < graphs.len() ==> union_of(graphs).contains_key(#[trigger] graphs[k].root)
}

/// The position of the last node among the first `upto` that the reverse
/// sweep cannot differentiate.
pub open spec fn last_blocking<T>(nodes: Seq<Node<T>>, upto: int) -> Option<int>
    decreases upto,
{
    if upto <= 0 {
        None
    } else if nodes[upto - 1].blocks_backward() {
        Some(upto - 1)
    } else {
        last_blocking(nodes, upto - 1)
    }
}

/// `found`, if any, names the node at the position `at`, if any.
pub open spec fn marks<T>(found: Option<UnsupportedOperation>, nodes: Seq<Node<T>>, at: Option<int>) -> bool {
    match (found, at) {
        (Some(e), Some(at)) => e.id.0 == at && (nodes[at] matches Node::Operation(n)
            && n.operation == e.operation),
        (None, None) => true,
        _ => false,
    }
}

/// What a node holds before the first evaluation: an immediate its scalar,
/// any other node zero.
pub open spec fn initial_value<T>(node: Node<T>, zero: T) -> T {
    match node {
        Node::Immediate(v) => v,
        _ => zero,
    }
}

/// What a node holds after a forward sweep that left `values`: an operation
/// its operation applied to its operands' values, any other node `own`, its
/// value before the sweep.
pub open spec fn settled<T>(m: Model<T>, node: Node<T>, values: Seq<T>, own: T) -> T {
    match node {
        Node::Operation(n) => m.apply(
            n.operation,
            values[n.left_id.0 as int],
            values[n.right_id.0 as int],
        ),
        _ => own,
    }
}

/// `after` is `before` with the first `upto` nodes settled.
pub open spec fn settled_upto<T>(
    m: Model<T>,
    nodes: Seq<Node<T>>,
    before: Seq<T>,
    after: Seq<T>,
    upto: int,
) -> bool {
    &&& after.len() == before.len()
    &&& forall|i: int| 0 <= i < upto ==> #[trigger] after[i] == settled(m, nodes[i], after, before[i])
    &&& forall|i: int| upto <= i < after.len() ==> #[trigger] after[i] == before[i]
}

/// A frozen expression graph. Position `i` of `nodes` and of `data` belongs
/// to the node with handle `i`.
#[derive(Debug)]
pub struct RunnableGraph<T> {
    /// The nodes, indexed by handle.
    pub nodes: Vec<Node<T>>,
    /// The value and gradient of each node, indexed by handle.
    pub data: Vec<Data<T>>,
    /// The designated output nodes, in the order in which they were given.
    pub outputs: Vec<NodeId>,
    /// The last node that the reverse sweep cannot differentiate, if any.
    pub blocked: Option<UnsupportedOperation>,
}

impl<T: Copy> RunnableGraph<T> {
    /// The value of each node, indexed by handle.
    pub open spec fn values(&self) -> Seq<T> {
        self.data@.map_values(|d: Data<T>| d.value)
    }

    /// The gradient of each node, indexed by handle.
    pub open spec fn gradients(&self) -> Seq<T> {
        self.data@.map_values(|d: Data<T>| d.gradient)
    }

    /// The graph's invariant: one slot per node, every operation after its
    /// operands, every output a node of the graph.
    pub open spec fn wf(&self) -> bool {
        &&& self.data.len() == self.nodes.len()
        &&& forall|i: int| 0 <= i < self.nodes.len() ==> (#[trigger] self.nodes[i]).precedes(i)
        &&& forall|k: int| 0 <= k < self.outputs.len() ==> (#[trigger] self.outputs[k]).0 < self.nodes.len()
        &&& marks(self.blocked, self.nodes@, last_blocking(self.nodes@, self.nodes.len() as int))
    }

    /// Freezes fragments into one graph: their nodes merged by handle and
    /// laid out in order of handle, every value the node's immediate or zero,
    /// every gradient zero, the fragments' roots as outputs. Succeeds exactly
    /// when the fragments are freezable.
    pub fn new<B, P, R, N>(graphs: Vec<&GraphBuilder<T>>, arith: &Arithmetic<T, B, P, R, N>) -> (out:
        Option<RunnableGraph<T>>) where
        B: Fn(Operation, T, T) -> T,
        P: Fn(T) -> bool,
        R: Fn(T) -> T,
        N: Fn(u64) -> T,

        requires
            forall|k: int| 0 <= k < graphs.len() ==> (#[trigger] graphs[k]).wf(),
        ensures
            out is Some <==> freezable(graphs@),
            out matches Some(g) ==> {
                &&& g.wf()
                &&& forall|id: NodeId| union_of(graphs@).contains_key(id) <==> id.0 < g.nodes.len()
                &&& forall|i: int|
                    0 <= i < g.nodes.len() ==> #[trigger] g.nodes[i] == union_of(graphs@)[NodeId(i as usize)]
                &&& forall|i: int|
                    0 <= i < g.nodes.len() ==> (#[trigger] g.data[i]).value == initial_value(
                        g.nodes[i],
                        arith.zero,
                    ) && g.data[i].gradient == arith.zero
                &&& g.outputs@ == roots_of(graphs@)
            },
    {
        let mut merged: Vec<(NodeId, Node<T>)> = Vec::new();
        let mut outputs: Vec<NodeId> = Vec::new();
        let mut k: usize = 0;
        while k < graphs.len()
            invariant
                k <= graphs.len(),
                forall|a: int| 0 <= a < graphs.len() ==> (#[trigger] graphs[a]).wf(),
                increasing(merged@),
                as_map(merged@) == union_of(graphs@.take(k as int)),
                topological(as_map(merged@)),
                outputs@ == roots_of(graphs@.take(k as int)),
            decreases graphs.len() - k,
        {
            let g: &GraphBuilder<T> = graphs[k];
            proof {
                assert(graphs@.take(k as int + 1).drop_last() =~= graphs@.take(k as int));
                assert(roots_of(graphs@.take(k as int + 1)) =~= roots_of(graphs@.take(k as int)).push(
                    g.root,
                ));
            }
            merged = merge(&merged, &g.nodes);
            outputs.push(g.root);
            k += 1;
        }
        proof {
            assert(graphs@.take(k as int) =~= graphs@);
        }
        let ghost all = union_of(graphs@);
        let count: usize = merged.len();
        let mut nodes: Vec<Node<T>> = Vec::new();
        let mut data: Vec<Data<T>> = Vec::new();
        let mut blocked: Option<UnsupportedOperation> = None;
        let mut i: usize = 0;
        while i < count
            invariant
                i <= count,
                count == merged.len(),
                increasing(merged@),
                as_map(merged@) == all,
                topological(all),
                nodes.len() == i,
                data.len() == i,
                forall|a: int| 0 <= a < i ==> (#[trigger] merged[a]).0.0 == a,
                forall|a: int| 0 <= a < i ==> #[trigger] nodes[a] == merged[a].1,
                forall|a: int|
                    0 <= a < i ==> (#[trigger] data[a]).value == initial_value(nodes[a], arith.zero)
                        && data[a].gradient == arith.zero,
                marks(blocked, nodes@, last_blocking(nodes@, i as int)),
                all == union_of(graphs@),
            decreases count - i,
        {
            let (id, node) = merged[i];
            if id.0 != i {
                proof {
                    lemma_as_map_entry(merged@, i as int);
                    let hole = NodeId(i);
                    if all.contains_key(hole) {
                        lemma_as_map_key(merged@, hole);
                        let p = choose|p: int| 0 <= p < merged@.len() && #[trigger] merged@[p].0 == hole;
                        if p > i {
                            assert(merged[i as int].0.0 < merged[p].0.0);
                        }
                    }
                    if i > 0 {
                        assert(merged[i as int - 1].0.0 < merged[i as int].0.0);
                    }
                    assert(all.contains_key(id) && hole.0 < id.0 && !all.contains_key(hole));
                }
                return None;
            }
            let slot = match node {
                Node::Immediate(v) => Data::new(v, arith.zero),
                _ => Data::new(arith.zero, arith.zero),
            };
            let ghost before = nodes@;
            if let Node::Operation(n) = node {
                if !n.operation.is_differentiable() {
                    blocked = Some(UnsupportedOperation { id: NodeId(i), operation: n.operation });
                }
            }
            nodes.push(node);
            data.push(slot);
            proof {
                assert(nodes@.take(i as int) =~= before);
                lemma_last_blocking_prefix(nodes@, before, i as int);
                lemma_last_blocking(before, i as int);
                if let Some(at) = last_blocking(before, i as int) {
                    assert(nodes@[at] == before[at]);
                }
            }
            i += 1;
        }
        proof {
            assert forall|id: NodeId| all.contains_key(id) <==> id.0 < count by {
                if all.contains_key(id) {
                    lemma_as_map_key(merged@, id);
                }
                if id.0 < count {
                    lemma_as_map_entry(merged@, id.0 as int);
                }
            }
            assert forall|a: int| 0 <= a < count implies #[trigger] nodes[a] == all[NodeId(a as usize)]
                && nodes[a].precedes(a) by {
                lemma_as_map_entry(merged@, a);
            }
            assert(dense(all));
        }
        let mut r: usize = 0;
        while r < outputs.len()
            invariant
                r <= outputs.len(),
                outputs@ == roots_of(graphs@),
                all == union_of(graphs@),
                dense(all),
                forall|id: NodeId| all.contains_key(id) <==> id.0 < count,
                forall|a: int| 0 <= a < r ==> (#[trigger] outputs[a]).0 < count,
            decreases outputs.len() - r,
        {
            if outputs[r].0 >= count {
                proof {
                    assert(graphs[r as int].root == outputs[r as int]);
                    assert(!all.contains_key(graphs[r as int].root));
                }
                return None;
            }
            r += 1;
        }
        proof {
            assert forall|a: int| 0 <= a < graphs.len() implies all.contains_key(
                #[trigger] graphs[a].root,
            ) by {
                assert(graphs[a].root == outputs[a]);
            }
        }
        Some(RunnableGraph { nodes, data, outputs, blocked })
    }

    /// The number of nodes.
    pub fn len(&self) -> (n: usize)
        ensures
            n == self.nodes.len(),
    {
        self.nodes.len()
    }

    /// The number of slots handed to an optimiser: one per node.
    pub fn num_parameters(&self) -> (n: usize)
        ensures
            n == self.data.len(),
    {
        self.data.len()
    }

    /// The node with handle `id`.
    pub fn node(&self, id: NodeId) -> (node: Node<T>)
        requires
            id.0 < self.nodes.len(),
        ensures
            node == self.nodes[id.0 as int],
    {
        self.nodes[id.0]
    }

    /// Whether `id` is the handle of an input node of this graph.
    pub fn is_input(&self, id: NodeId) -> (b: bool)
        ensures
            b == (id.0 < self.nodes.len() && self.nodes[id.0 as int] is Input),
    {
        if id.0 < self.nodes.len() {
            match self.nodes[id.0] {
                Node::Input => true,
                _ => false,
            }
        } else {
            false
        }
    }

    /// The value that the node with handle `id` holds.
    pub fn value_for_id(&self, id: NodeId) -> (v: T)
        requires
            id.0 < self.data.len(),
        ensures
            v == self.values()[id.0 as int],
    {
        self.data[id.0].value
    }

    /// The gradient that the node with handle `id` holds.
    pub fn grad_for_id(&self, id: NodeId) -> (g: T)
        requires
            id.0 < self.data.len(),
        ensures
            g == self.gradients()[id.0 as int],
    {
        self.data[id.0].gradient
    }

    /// Supplies the value of the input node `inp`.
    pub fn set_input(&mut self, inp: NodeId, val: T)
        requires
            old(self).wf(),
            inp.0 < old(self).nodes.len(),
            old(self).nodes[inp.0 as int] is Input,
        ensures
            final(self).wf(),
            final(self).nodes == old(self).nodes,
            final(self).outputs == old(self).outputs,
            final(self).blocked == old(self).blocked,
            final(self).gradients() == old(self).gradients(),
            final(self).values() == old(self).values().update(inp.0 as int, val),
    {
        self.data[inp.0].value = val;
        proof {
            assert(self.gradients() =~= old(self).gradients());
            assert(self.values() =~= old(self).values().update(inp.0 as int, val));
        }
    }

    /// Evaluates the graph in one sweep over the nodes in increasing order of
    /// handle, and returns the values of the nodes `outputs`, in the order
    /// given. After the sweep every operation node holds its operation
    /// applied to the values of its operands, and every other node the value
    /// it held before.
    pub fn evaluate<B, P, R, N>(
        &mut self,
        outputs: &Vec<NodeId>,
        arith: &Arithmetic<T, B, P, R, N>,
    ) -> (out: Vec<T>) where
        B: Fn(Operation, T, T) -> T,
        P: Fn(T) -> bool,
        R: Fn(T) -> T,
        N: Fn(u64) -> T,

        requires
            old(self).wf(),
            arith.total(),
            forall|k: int| 0 <= k < outputs.len() ==> (#[trigger] outputs[k]).0 < old(self).nodes.len(),
        ensures
            final(self).wf(),
            final(self).nodes == old(self).nodes,
            final(self).outputs == old(self).outputs,
            final(self).blocked == old(self).blocked,
            final(self).gradients() == old(self).gradients(),
            forall|i: int|
                0 <= i < old(self).nodes.len() && !(old(self).nodes[i] is Operation)
                    ==> #[trigger] final(self).values()[i] == old(self).values()[i],
            forall|m: Model<T>| #[trigger]
                arith.conforms(m) ==> settled_upto(
                    m,
                    old(self).nodes@,
                    old(self).values(),
                    final(self).values(),
                    old(self).nodes.len() as int,
                ),
            out.len() == outputs.len(),
            forall|k: int|
                0 <= k < outputs.len() ==> #[trigger] out[k] == final(self).values()[outputs[k].0 as int],
    {
        let count: usize = self.nodes.len();
        let mut i: usize = 0;
        while i < count
            invariant
                old(self).wf(),
                arith.total(),
                i <= count,
                count == self.nodes.len(),
                self.data.len() == count,
                self.nodes == old(self).nodes,
                self.outputs == old(self).outputs,
                self.blocked == old(self).blocked,
                forall|a: int|
                    0 <= a < count ==> (#[trigger] self.data[a]).gradient == old(self).data[a].gradient,
                forall|a: int|
                    0 <= a < count && !(self.nodes[a] is Operation) ==> (#[trigger] self.data[a]).value
                        == old(self).data[a].value,
                forall|m: Model<T>| #[trigger]
                    arith.conforms(m) ==> settled_upto(
                        m,
                        self.nodes@,
                        old(self).values(),
                        self.values(),
                        i as int,
                    ),
            decreases count - i,
        {
            if let Node::Operation(n) = self.nodes[i] {
                let ghost prev = self.values();
                assert(self.nodes[i as int].precedes(i as int));
                let l = self.data[n.left_id.0].value;
                let r = self.data[n.right_id.0].value;
                let v = arith.apply(n.operation, l, r);
                self.data[i].value = v;
                proof {
                    assert(self.values() =~= prev.update(i as int, v));
                    assert forall|m: Model<T>| #[trigger] arith.conforms(m) implies settled_upto(
                        m,
                        self.nodes@,
                        old(self).values(),
                        self.values(),
                        i as int + 1,
                    ) by {
                        assert(settled_upto(m, self.nodes@, old(self).values(), prev, i as int));
                        assert forall|a: int| 0 <= a < i + 1 implies #[trigger] self.values()[a]
                            == settled(m, self.nodes[a], self.values(), old(self).values()[a]) by {
                            assert(self.nodes[a].precedes(a));
                            if a < i {
                                assert(prev[a] == settled(m, self.nodes[a], prev, old(self).values()[a]));
                            }
                        }
                    }
                }
            } else {
                proof {
                    assert forall|m: Model<T>| #[trigger] arith.conforms(m) implies settled_upto(
                        m,
                        self.nodes@,
                        old(self).values(),
                        self.values(),
                        i as int + 1,
                    ) by {
                        assert(settled_upto(m, self.nodes@, old(self).values(), self.values(), i as int));
                    }
                }
            }
            i += 1;
        }
        proof {
            assert(self.gradients() =~= old(self).gradients());
        }
        let mut out: Vec<T> = Vec::new();
        let mut k: usize = 0;
        while k < outputs.len()
            invariant
                k <= outputs.len(),
                out.len() == k,
                self.data.len() == old(self).nodes.len(),
                forall|a: int|
                    0 <= a < outputs.len() ==> (#[trigger] outputs[a]).0 < old(self).nodes.len(),
                forall|a: int| 0 <= a < k ==> #[trigger] out[a] == self.values()[outputs[a].0 as int],
            decreases outputs.len() - k,
        {
            out.push(self.data[outputs[k].0].value);
            k += 1;
        }
        out
    }

    /// Resets the gradient of every node to zero.
    pub fn zero_grads<B, P, R, N>(&mut self, arith: &Arithmetic<T, B, P, R, N>) where
        B: Fn(Operation, T, T) -> T,
        P: Fn(T) -> bool,
        R: Fn(T) -> T,
        N: Fn(u64) -> T,

        requires
            old(self).wf(),
        ensures
            final(self).wf(),
            final(self).nodes == old(self).nodes,
            final(self).outputs == old(self).outputs,
            final(self).blocked == old(self).blocked,
            final(self).values() == old(self).values(),
            final(self).gradients().len() == old(self).gradients().len(),
            forall|i: int|
                0 <= i < final(self).gradients().len() ==> #[trigger] final(self).gradients()[i]
                    == arith.zero,
    {
        let mut i: usize = 0;
        while i < self.data.len()
            invariant
                i <= self.data.len(),
                self.data.len() == old(self).data.len(),
                self.nodes == old(self).nodes,
                self.outputs == old(self).outputs,
                self.blocked == old(self).blocked,
                forall|a: int|
                    0 <= a < self.data.len() ==> (#[trigger] self.data[a]).value
                        == old(self).data[a].value,
                forall|a: int| 0 <= a < i ==> (#[trigger] self.data[a]).gradient == arith.zero,
            decreases self.data.len() - i,
        {
            self.data[i].gradient = arith.zero;
            i += 1;
        }
        proof {
            assert(self.values() =~= old(self).values());
        }
    }
}

/// The union holds a handle exactly where one of the fragments holds it, and
/// the node under it is the node that one of those fragments holds under it.
pub proof fn lemma_union_of_member<T: Copy>(graphs: Seq<&GraphBuilder<T>>, id: NodeId)
    ensures
        union_of(graphs).contains_key(id) <==> exists|k: int|
            0 <= k < graphs.len() && (#[trigger] graphs[k])@.contains_key(id),
        union_of(graphs).contains_key(id) ==> exists|k: int|
            0 <= k < graphs.len() && (#[trigger] graphs[k])@.contains_key(id) && union_of(graphs)[id]
                == graphs[k]@[id],
    decreases graphs.len(),
{
    if graphs.len() > 0 {
        let rest = graphs.drop_last();
        let last = graphs.last();
        lemma_union_of_member(rest, id);
        if last@.contains_key(id) {
            assert(graphs[graphs.len() - 1]@.contains_key(id));
        } else if union_of(rest).contains_key(id) {
            let k = choose|k: int|
                0 <= k < rest.len() && (#[trigger] rest[k])@.contains_key(id) && union_of(rest)[id]
                    == rest[k]@[id];
            assert(graphs[k]@.contains_key(id));
        }
        if exists|k: int| 0 <= k < graphs.len() && (#[trigger] graphs[k])@.contains_key(id) {
            let k = choose|k: int| 0 <= k < graphs.len() && (#[trigger] graphs[k])@.contains_key(id);
            if k < graphs.len() - 1 {
                assert(rest[k]@.contains_key(id));
            }
        }
    }
}

/// Topological order. In the union of well-formed fragments, whether they
/// were built together or apart, both operands of every operation node have
/// smaller handles than the node itself.
pub proof fn lemma_operands_precede<T: Copy>(
    graphs: Seq<&GraphBuilder<T>>,
    id: NodeId,
    n: GraphBuilderNode,
)
    requires
        forall|k: int| 0 <= k < graphs.len() ==> (#[trigger] graphs[k]).wf(),
        union_of(graphs).contains_key(id),
        union_of(graphs)[id] == Node::<T>::Operation(n),
    ensures
        n.left_id.0 < id.0,
        n.right_id.0 < id.0,
    decreases graphs.len(),
{
    if graphs.len() > 0 {
        let last = graphs.last();
        assert(last.wf());
        if last@.contains_key(id) {
            assert(last@[id].precedes(id.0 as int));
        } else {
            lemma_operands_precede(graphs.drop_last(), id, n);
        }
    }
}

/// Evaluation is repeatable. Two forward sweeps over the same nodes, from
/// values that agree on every input and immediate, leave the same value in
/// every node.
pub proof fn lemma_evaluation_repeatable<T>(
    m: Model<T>,
    nodes: Seq<Node<T>>,
    before_1: Seq<T>,
    after_1: Seq<T>,
    before_2: Seq<T>,
    after_2: Seq<T>,
)
    requires
        forall|i: int| 0 <= i < nodes.len() ==> (#[trigger] nodes[i]).precedes(i),
        before_1.len() == nodes.len(),
        before_2.len() == nodes.len(),
        forall|i: int|
            0 <= i < nodes.len() && !(nodes[i] is Operation) ==> #[trigger] before_1[i] == before_2[i],
        settled_upto(m, nodes, before_1, after_1, nodes.len() as int),
        settled_upto(m, nodes, before_2, after_2, nodes.len() as int),
    ensures
        after_1 == after_2,
{
    lemma_settled_agree(m, nodes, before_1, after_1, before_2, after_2, nodes.len() as int);
    assert(after_1 =~= after_2);
}

proof fn lemma_settled_agree<T>(
    m: Model<T>,
    nodes: Seq<Node<T>>,
    before_1: Seq<T>,
    after_1: Seq<T>,
    before_2: Seq<T>,
    after_2: Seq<T>,
    upto: int,
)
    requires
        0 <= upto <= nodes.len(),
        forall|i: int| 0 <= i < nodes.len() ==> (#[trigger] nodes[i]).precedes(i),
        before_1.len() == nodes.len(),
        before_2.len() == nodes.len(),
        forall|i: int|
            0 <= i < nodes.len() && !(nodes[i] is Operation) ==> #[trigger] before_1[i] == before_2[i],
        settled_upto(m, nodes, before_1, after_1, nodes.len() as int),
        settled_upto(m, nodes, before_2, after_2, nodes.len() as int),
    ensures
        forall|i: int| 0 <= i < upto ==> #[trigger] after_1[i] == after_2[i],
    decreases upto,
{
    if upto > 0 {
        lemma_settled_agree(m, nodes, before_1, after_1, before_2, after_2, upto - 1);
        let i = upto - 1;
        assert(nodes[i].precedes(i));
        assert(after_1[i] == settled(m, nodes[i], after_1, before_1[i]));
        assert(after_2[i] == settled(m, nodes[i], after_2, before_2[i]));
    }
}

/// What `last_blocking` finds is the last blocking node, and it finds one
/// where there is one.
pub proof fn lemma_last_blocking<T>(nodes: Seq<Node<T>>, upto: int)
    requires
        0 <= upto <= nodes.len(),
    ensures
        match last_blocking(nodes, upto) {
            Some(at) => 0 <= at < upto && nodes[at].blocks_backward() && forall|j: int|
                at < j < upto ==> !(#[trigger] nodes[j]).blocks_backward(),
            None => forall|j: int| 0 <= j < upto ==> !(#[trigger] nodes[j]).blocks_backward(),
        },
    decreases upto,
{
    if upto > 0 && !nodes[upto - 1].blocks_backward() {
        lemma_last_blocking(nodes, upto - 1);
    }
}

/// Appending a node after the first `upto` leaves the last blocking node
/// among them as it was.
proof fn lemma_last_blocking_prefix<T>(longer: Seq<Node<T>>, shorter: Seq<Node<T>>, upto: int)
    requires
        0 <= upto <= shorter.len(),
        shorter.len() <= longer.len(),
        forall|a: int| 0 <= a < upto ==> longer[a] == shorter[a],
    ensures
        last_blocking(longer, upto) == last_blocking(shorter, upto),
    decreases upto,
{
    if upto > 0 {
        lemma_last_blocking_prefix(longer, shorter, upto - 1);
    }
}

} // verus!
