//! The reverse sweep: seeding output gradients and distributing every
//! operation's gradient to its operands.

use vstd::prelude::*;
use crate::graph::{lemma_last_blocking, RunnableGraph};
use crate::node::{Node, NodeId, Operation, UnsupportedOperation};
use crate::scalar::{Arithmetic, Model};

verus! {

/// The gradients after the seeds were added, one after the other, each to the
/// gradient of its node.
pub open spec fn seeded<T>(m: Model<T>, grads: Seq<T>, seeds: Seq<(NodeId, T)>) -> Seq<T>
    decreases seeds.len(),
{
    if seeds.len() == 0 {
        grads
    } else {
        let before = seeded(m, grads, seeds.drop_last());
        let (id, seed) = seeds.last();
        before.update(id.0 as int, m.plus(before[id.0 as int], seed))
    }
}

/// What an operation with gradient `g` adds to the gradient of one operand,
/// which holds `operand`, while the other operand holds `other`.
pub open spec fn contribution<T>(m: Model<T>, op: Operation, operand: T, other: T, g: T) -> T {
    match op {
        Operation::Mul => m.times(other, g),
        Operation::Relu => if (m.positive)(operand) {
            g
        } else {
            m.zero
        },
        _ => g,
    }
}

/// The gradients after the node at position `at` has distributed its own
/// gradient: added to the left operand's, and, unless the node is a `Relu`,
/// to the right operand's after that. A node that is no differentiable
/// operation distributes nothing.
pub open spec fn distribute<T>(m: Model<T>, node: Node<T>, values: Seq<T>, grads: Seq<T>, at: int) -> Seq<T> {
    match node {
        Node::Operation(n) => if n.operation.differentiable() {
            let l = n.left_id.0 as int;
            let r = n.right_id.0 as int;
            let first = grads.update(
                l,
                m.plus(grads[l], contribution(m, n.operation, values[l], values[r], grads[at])),
            );
            if n.operation is Relu {
                first
            } else {
                first.update(
                    r,
                    m.plus(first[r], contribution(m, n.operation, values[r], values[l], grads[at])),
                )
            }
        } else {
            grads
        },
        _ => grads,
    }
}

/// The gradients after every node from position `from` on has distributed
/// its gradient, the last node first.
pub open spec fn propagate<T>(
    m: Model<T>,
    nodes: Seq<Node<T>>,
    values: Seq<T>,
    grads: Seq<T>,
    from: int,
) -> Seq<T>
    decreases nodes.len() - from,
{
    if from >= nodes.len() {
        grads
    } else {
        distribute(m, nodes[from], values, propagate(m, nodes, values, grads, from + 1), from)
    }
}

/// The gradient `acc` of the node at position `x` after one node has added
/// its share to it: once where `x` is the node's left operand, and once more
/// where `x` is its right operand and the node is no `Relu`. `g` is the
/// node's own gradient.
pub open spec fn absorb<T>(m: Model<T>, node: Node<T>, values: Seq<T>, g: T, x: int, acc: T) -> T {
    match node {
        Node::Operation(n) => if n.operation.differentiable() {
            let l = n.left_id.0 as int;
            let r = n.right_id.0 as int;
            let first = if l == x {
                m.plus(acc, contribution(m, n.operation, values[l], values[r], g))
            } else {
                acc
            };
            if r == x && !(n.operation is Relu) {
                m.plus(first, contribution(m, n.operation, values[r], values[l], g))
            } else {
                first
            }
        } else {
            acc
        },
        _ => acc,
    }
}

/// The gradient of the node at position `x` that starts as `start` and
/// absorbs the share of every node from position `from` on, the last node
/// first. `swept` holds the gradient of each node at the end of the sweep.
pub open spec fn accumulated<T>(
    m: Model<T>,
    nodes: Seq<Node<T>>,
    values: Seq<T>,
    swept: Seq<T>,
    x: int,
    start: T,
    from: int,
) -> T
    decreases nodes.len() - from,
{
    if from >= nodes.len() {
        start
    } else {
        absorb(
            m,
            nodes[from],
            values,
            swept[from],
            x,
            accumulated(m, nodes, values, swept, x, start, from + 1),
        )
    }
}

/// The sweep keeps the number of gradients.
pub proof fn lemma_propagate_len<T>(
    m: Model<T>,
    nodes: Seq<Node<T>>,
    values: Seq<T>,
    grads: Seq<T>,
    from: int,
)
    requires
        forall|i: int| 0 <= i < nodes.len() ==> (#[trigger] nodes[i]).precedes(i),
        grads.len() == nodes.len(),
        0 <= from,
    ensures
        propagate(m, nodes, values, grads, from).len() == grads.len(),
    decreases nodes.len() - from,
{
    if from < nodes.len() {
        lemma_propagate_len(m, nodes, values, grads, from + 1);
        assert(nodes[from].precedes(from));
    }
}

/// A node's gradient is final once the node has distributed it: the nodes
/// before it leave it alone.
pub proof fn lemma_propagate_settles<T>(
    m: Model<T>,
    nodes: Seq<Node<T>>,
    values: Seq<T>,
    grads: Seq<T>,
    from: int,
    j: int,
)
    requires
        forall|i: int| 0 <= i < nodes.len() ==> (#[trigger] nodes[i]).precedes(i),
        grads.len() == nodes.len(),
        0 <= from <= j + 1 <= nodes.len(),
    ensures
        propagate(m, nodes, values, grads, from)[j] == propagate(m, nodes, values, grads, j + 1)[j],
    decreases j + 1 - from,
{
    if from < j + 1 {
        lemma_propagate_settles(m, nodes, values, grads, from + 1, j);
        lemma_propagate_len(m, nodes, values, grads, from + 1);
        assert(nodes[from].precedes(from));
    }
}

proof fn lemma_accumulate_from<T>(
    m: Model<T>,
    nodes: Seq<Node<T>>,
    values: Seq<T>,
    grads: Seq<T>,
    x: int,
    from: int,
)
    requires
        forall|i: int| 0 <= i < nodes.len() ==> (#[trigger] nodes[i]).precedes(i),
        grads.len() == nodes.len(),
        0 <= x < nodes.len(),
        0 <= from <= nodes.len(),
    ensures
        propagate(m, nodes, values, grads, from)[x] == accumulated(
            m,
            nodes,
            values,
            propagate(m, nodes, values, grads, 0),
            x,
            grads[x],
            from,
        ),
    decreases nodes.len() - from,
{
    if from < nodes.len() {
        lemma_accumulate_from(m, nodes, values, grads, x, from + 1);
        lemma_propagate_settles(m, nodes, values, grads, 0, from);
        lemma_propagate_len(m, nodes, values, grads, from + 1);
        assert(nodes[from].precedes(from));
    }
}

/// Gradients accumulate. The gradient that a node holds after the sweep is
/// the gradient it held before, with the share of every operation that reads
/// the node added to it, the last operation first: one share for each
/// operand the node is. No share replaces another.
pub proof fn lemma_gradients_accumulate<T>(
    m: Model<T>,
    nodes: Seq<Node<T>>,
    values: Seq<T>,
    grads: Seq<T>,
    x: int,
)
    requires
        forall|i: int| 0 <= i < nodes.len() ==> (#[trigger] nodes[i]).precedes(i),
        grads.len() == nodes.len(),
        0 <= x < nodes.len(),
    ensures
        propagate(m, nodes, values, grads, 0)[x] == accumulated(
            m,
            nodes,
            values,
            propagate(m, nodes, values, grads, 0),
            x,
            grads[x],
            0,
        ),
{
    lemma_accumulate_from(m, nodes, values, grads, x, 0);
}

/// Seeds accumulate. Two seeds for one node are both added to its gradient,
/// the first seed first.
pub proof fn lemma_seeds_accumulate<T>(m: Model<T>, grads: Seq<T>, id: NodeId, first: T, second: T)
    requires
        id.0 < grads.len(),
    ensures
        seeded(m, grads, seq![(id, first), (id, second)])[id.0 as int] == m.plus(
            m.plus(grads[id.0 as int], first),
            second,
        ),
{
    let both = seq![(id, first), (id, second)];
    assert(both.drop_last() =~= seq![(id, first)]);
    assert(both.drop_last().drop_last() =~= Seq::<(NodeId, T)>::empty());
    reveal_with_fuel(seeded, 3);
}

impl<T: Copy> RunnableGraph<T> {
    /// Adds to the gradient of the operand `id` what an operation `operation`
    /// with gradient `root_grad` contributes to it. `operand_value` is the
    /// value of that operand, `other_value` the value of the other one.
    pub fn update<B, P, R, N>(
        &mut self,
        id: NodeId,
        operation: Operation,
        operand_value: T,
        root_grad: T,
        other_value: T,
        arith: &Arithmetic<T, B, P, R, N>,
    ) where
        B: Fn(Operation, T, T) -> T,
        P: Fn(T) -> bool,
        R: Fn(T) -> T,
        N: Fn(u64) -> T,

        requires
            old(self).wf(),
            arith.total(),
            id.0 < old(self).nodes.len(),
            operation.differentiable(),
        ensures
            final(self).wf(),
            final(self).nodes == old(self).nodes,
            final(self).outputs == old(self).outputs,
            final(self).blocked == old(self).blocked,
            final(self).values() == old(self).values(),
            forall|m: Model<T>| #[trigger]
                arith.conforms(m) ==> final(self).gradients() == old(self).gradients().update(
                    id.0 as int,
                    m.plus(
                        old(self).gradients()[id.0 as int],
                        contribution(m, operation, operand_value, other_value, root_grad),
                    ),
                ),
    {
        let amount = match operation {
            Operation::Mul => arith.times(other_value, root_grad),
            Operation::Relu => if arith.is_positive(operand_value) {
                root_grad
            } else {
                arith.zero
            },
            _ => root_grad,
        };
        let sum = arith.plus(self.data[id.0].gradient, amount);
        self.data[id.0].gradient = sum;
        proof {
            assert(self.values() =~= old(self).values());
            assert(self.gradients() =~= old(self).gradients().update(id.0 as int, sum));
        }
    }

    /// Adds each seed to the gradient of its node, then sweeps once over the
    /// nodes in decreasing order of handle; every `Add`, `Mul` and `Relu`
    /// node adds its share to the gradients of its operands. Values are left
    /// as they are.
    ///
    /// A graph that holds a `Sub`, `Div` or `Pow` node is refused: the result
    /// names the last such node, and no gradient is touched.
    pub fn backwards<B, P, R, N>(
        &mut self,
        out_grads: Vec<(NodeId, T)>,
        arith: &Arithmetic<T, B, P, R, N>,
    ) -> (done: Result<(), UnsupportedOperation>) where
        B: Fn(Operation, T, T) -> T,
        P: Fn(T) -> bool,
        R: Fn(T) -> T,
        N: Fn(u64) -> T,

        requires
            old(self).wf(),
            arith.total(),
            forall|k: int|
                0 <= k < out_grads.len() ==> (#[trigger] out_grads[k]).0.0 < old(self).nodes.len(),
        ensures
            final(self).wf(),
            final(self).nodes == old(self).nodes,
            final(self).outputs == old(self).outputs,
            final(self).blocked == old(self).blocked,
            final(self).values() == old(self).values(),
            done is Err <==> exists|i: int|
                0 <= i < old(self).nodes.len() && (#[trigger] old(self).nodes[i]).blocks_backward(),
            done matches Err(e) ==> {
                &&& final(self).gradients() == old(self).gradients()
                &&& e.id.0 < old(self).nodes.len()
                &&& old(self).nodes[e.id.0 as int] matches Node::Operation(n) && n.operation
                    == e.operation
                &&& !e.operation.differentiable()
                &&& forall|j: int|
                    e.id.0 < j < old(self).nodes.len() ==> !(#[trigger] old(self).nodes[j]).blocks_backward()
            },
            done is Ok ==> forall|m: Model<T>| #[trigger]
                arith.conforms(m) ==> final(self).gradients() == propagate(
                    m,
                    old(self).nodes@,
                    old(self).values(),
                    seeded(m, old(self).gradients(), out_grads@),
                    0,
                ),
    {
        proof {
            lemma_last_blocking(self.nodes@, self.nodes.len() as int);
        }
        if let Some(e) = self.blocked {
            return Err(e);
        }
        let mut k: usize = 0;
        while k < out_grads.len()
            invariant
                old(self).wf(),
                self.wf(),
                arith.total(),
                k <= out_grads.len(),
                self.nodes == old(self).nodes,
                self.outputs == old(self).outputs,
                self.blocked == old(self).blocked,
                self.values() == old(self).values(),
                forall|a: int|
                    0 <= a < out_grads.len() ==> (#[trigger] out_grads[a]).0.0 < old(self).nodes.len(),
                forall|m: Model<T>| #[trigger]
                    arith.conforms(m) ==> self.gradients() == seeded(
                        m,
                        old(self).gradients(),
                        out_grads@.take(k as int),
                    ),
            decreases out_grads.len() - k,
        {
            let (id, seed) = out_grads[k];
            let ghost prev = self.gradients();
            let sum = arith.plus(self.data[id.0].gradient, seed);
            self.data[id.0].gradient = sum;
            proof {
                assert(self.values() =~= old(self).values());
                assert(self.gradients() =~= prev.update(id.0 as int, sum));
                assert(out_grads@.take(k as int + 1).drop_last() =~= out_grads@.take(k as int));
            }
            k += 1;
        }
        proof {
            assert(out_grads@.take(k as int) =~= out_grads@);
        }
        let count: usize = self.nodes.len();
        let mut i: usize = count;
        while i > 0
            invariant
                old(self).wf(),
                self.wf(),
                arith.total(),
                i <= count,
                count == self.nodes.len(),
                self.nodes == old(self).nodes,
                self.outputs == old(self).outputs,
                self.blocked == old(self).blocked,
                self.values() == old(self).values(),
                forall|m: Model<T>| #[trigger]
                    arith.conforms(m) ==> self.gradients() == propagate(
                        m,
                        old(self).nodes@,
                        old(self).values(),
                        seeded(m, old(self).gradients(), out_grads@),
                        i as int,
                    ),
            decreases i,
        {
            i -= 1;
            let ghost prev = self.gradients();
            if let Node::Operation(n) = self.nodes[i] {
                assert(self.nodes[i as int].precedes(i as int));
                if n.operation.is_differentiable() {
                    let g = self.data[i].gradient;
                    let lv = self.data[n.left_id.0].value;
                    let rv = self.data[n.right_id.0].value;
                    self.update(n.left_id, n.operation, lv, g, rv, arith);
                    match n.operation {
                        Operation::Relu => {},
                        _ => {
                            self.update(n.right_id, n.operation, rv, g, lv, arith);
                        },
                    }
                }
            }
            proof {
                assert forall|m: Model<T>| #[trigger] arith.conforms(m) implies self.gradients()
                    == propagate(
                    m,
                    old(self).nodes@,
                    old(self).values(),
                    seeded(m, old(self).gradients(), out_grads@),
                    i as int,
                ) by {
                    assert(prev == propagate(
                        m,
                        old(self).nodes@,
                        old(self).values(),
                        seeded(m, old(self).gradients(), out_grads@),
                        i as int + 1,
                    ));
                    assert(self.gradients() == distribute(
                        m,
                        self.nodes[i as int],
                        self.values(),
                        prev,
                        i as int,
                    ));
                }
            }
        }
        Ok(())
    }
}

} // verus!
