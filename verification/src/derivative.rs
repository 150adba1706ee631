//! The reverse sweep against the forward derivative, in exact arithmetic.

use vstd::prelude::*;
use crate::backward::{contribution, distribute, lemma_propagate_len, propagate, seeded};
use crate::node::{Node, NodeId, Operation};
use crate::scalar::Model;

verus! {

/// The arithmetic of `m` is exact: sums and products are those of a
/// commutative semiring with zero and one.
#[verifier::opaque]
pub open spec fn exact<T>(m: Model<T>) -> bool {
    &&& forall|a: T, b: T| #[trigger] m.plus(a, b) == m.plus(b, a)
    &&& forall|a: T, b: T, c: T| #[trigger] m.plus(m.plus(a, b), c) == m.plus(a, m.plus(b, c))
    &&& forall|a: T| #[trigger] m.plus(a, m.zero) == a
    &&& forall|a: T, b: T| #[trigger] m.times(a, b) == m.times(b, a)
    &&& forall|a: T, b: T, c: T| #[trigger] m.times(m.times(a, b), c) == m.times(a, m.times(b, c))
    &&& forall|a: T, b: T, c: T|
        #[trigger] m.times(a, m.plus(b, c)) == m.plus(m.times(a, b), m.times(a, c))
    &&& forall|a: T| #[trigger] m.times(a, m.zero) == m.zero
    &&& forall|a: T| #[trigger] m.times(a, (m.number)(1)) == a
}

proof fn lemma_plus_commutes<T>(m: Model<T>, a: T, b: T)
    requires
        exact(m),
    ensures
        m.plus(a, b) == m.plus(b, a),
{
    reveal(exact);
}

proof fn lemma_plus_associates<T>(m: Model<T>, a: T, b: T, c: T)
    requires
        exact(m),
    ensures
        m.plus(m.plus(a, b), c) == m.plus(a, m.plus(b, c)),
{
    reveal(exact);
}

proof fn lemma_plus_zero<T>(m: Model<T>, a: T)
    requires
        exact(m),
    ensures
        m.plus(a, m.zero) == a,
        m.plus(m.zero, a) == a,
{
    reveal(exact);
}

proof fn lemma_times_commutes<T>(m: Model<T>, a: T, b: T)
    requires
        exact(m),
    ensures
        m.times(a, b) == m.times(b, a),
{
    reveal(exact);
}

proof fn lemma_times_associates<T>(m: Model<T>, a: T, b: T, c: T)
    requires
        exact(m),
    ensures
        m.times(m.times(a, b), c) == m.times(a, m.times(b, c)),
{
    reveal(exact);
}

proof fn lemma_times_distributes<T>(m: Model<T>, a: T, b: T, c: T)
    requires
        exact(m),
    ensures
        m.times(a, m.plus(b, c)) == m.plus(m.times(a, b), m.times(a, c)),
        m.times(m.plus(b, c), a) == m.plus(m.times(b, a), m.times(c, a)),
{
    reveal(exact);
}

proof fn lemma_times_zero<T>(m: Model<T>, a: T)
    requires
        exact(m),
    ensures
        m.times(a, m.zero) == m.zero,
        m.times(m.zero, a) == m.zero,
{
    reveal(exact);
}

proof fn lemma_times_one<T>(m: Model<T>, a: T)
    requires
        exact(m),
    ensures
        m.times(a, (m.number)(1)) == a,
{
    reveal(exact);
}

/// The derivative of the node at position `at` where every input and
/// immediate changes at the rate that `direction` gives it: the sum rule
/// for `Add`, the product rule for `Mul`, and for `Relu` the derivative of
/// its operand where that is positive, and zero elsewhere.
pub open spec fn tangent<T>(
    m: Model<T>,
    nodes: Seq<Node<T>>,
    values: Seq<T>,
    direction: Seq<T>,
    at: int,
) -> T
    decreases at,
{
    match nodes[at] {
        Node::Operation(n) => {
            let l = n.left_id.0 as int;
            let r = n.right_id.0 as int;
            if l < at && r < at {
                let left = tangent(m, nodes, values, direction, l);
                let right = tangent(m, nodes, values, direction, r);
                match n.operation {
                    Operation::Add => m.plus(left, right),
                    Operation::Mul => m.plus(m.times(values[r], left), m.times(values[l], right)),
                    Operation::Relu => if (m.positive)(values[l]) {
                        left
                    } else {
                        m.zero
                    },
                    _ => m.zero,
                }
            } else {
                m.zero
            }
        },
        _ => direction[at],
    }
}

/// The node at position `i` still holds gradient to hand on or to keep when
/// the sweep has come down to position `k`: it is no operation, or the
/// sweep has not reached it.
pub open spec fn pending<T>(nodes: Seq<Node<T>>, k: int, i: int) -> bool {
    i < k || !(nodes[i] is Operation)
}

/// The sum, over the pending nodes among the first `upto`, of the node's
/// gradient times its derivative.
pub open spec fn pairing<T>(
    m: Model<T>,
    nodes: Seq<Node<T>>,
    values: Seq<T>,
    direction: Seq<T>,
    grads: Seq<T>,
    k: int,
    upto: int,
) -> T
    decreases upto,
{
    if upto <= 0 {
        m.zero
    } else {
        let rest = pairing(m, nodes, values, direction, grads, k, upto - 1);
        if pending(nodes, k, upto - 1) {
            m.plus(rest, m.times(grads[upto - 1], tangent(m, nodes, values, direction, upto - 1)))
        } else {
            rest
        }
    }
}

/// `(a + b) + c` is `(a + c) + b`.
proof fn lemma_plus_swaps<T>(m: Model<T>, a: T, b: T, c: T)
    requires
        exact(m),
    ensures
        m.plus(m.plus(a, b), c) == m.plus(m.plus(a, c), b),
{
    lemma_plus_associates(m, a, b, c);
    lemma_plus_commutes(m, b, c);
    lemma_plus_associates(m, a, c, b);
}

/// Raising one gradient by `d` raises the pairing by `d` times the
/// derivative of its node, where the node is pending and among the first
/// `upto`.
proof fn lemma_pairing_raised<T>(
    m: Model<T>,
    nodes: Seq<Node<T>>,
    values: Seq<T>,
    direction: Seq<T>,
    grads: Seq<T>,
    k: int,
    upto: int,
    j: int,
    d: T,
)
    requires
        exact(m),
        0 <= j < grads.len(),
        upto <= grads.len(),
    ensures
        pairing(m, nodes, values, direction, grads.update(j, m.plus(grads[j], d)), k, upto) == if j
            < upto && pending(nodes, k, j) {
            m.plus(
                pairing(m, nodes, values, direction, grads, k, upto),
                m.times(d, tangent(m, nodes, values, direction, j)),
            )
        } else {
            pairing(m, nodes, values, direction, grads, k, upto)
        },
    decreases upto,
{
    if upto > 0 {
        let raised = grads.update(j, m.plus(grads[j], d));
        let i = upto - 1;
        let rest = pairing(m, nodes, values, direction, grads, k, i);
        let at_i = tangent(m, nodes, values, direction, i);
        let at_j = tangent(m, nodes, values, direction, j);
        lemma_pairing_raised(m, nodes, values, direction, grads, k, i, j, d);
        if pending(nodes, k, i) {
            if i == j {
                lemma_times_distributes(m, at_i, grads[j], d);
                lemma_plus_associates(m, rest, m.times(grads[j], at_i), m.times(d, at_i));
            } else if j < i && pending(nodes, k, j) {
                lemma_plus_swaps(m, rest, m.times(d, at_j), m.times(grads[i], at_i));
            }
        }
    }
}

/// Retiring the operation at position `k` takes its gradient times its
/// derivative out of the pairing.
proof fn lemma_pairing_retired<T>(
    m: Model<T>,
    nodes: Seq<Node<T>>,
    values: Seq<T>,
    direction: Seq<T>,
    grads: Seq<T>,
    k: int,
    upto: int,
)
    requires
        exact(m),
        0 <= k,
    ensures
        pairing(m, nodes, values, direction, grads, k + 1, upto) == if k < upto && nodes[k] is Operation {
            m.plus(
                pairing(m, nodes, values, direction, grads, k, upto),
                m.times(grads[k], tangent(m, nodes, values, direction, k)),
            )
        } else {
            pairing(m, nodes, values, direction, grads, k, upto)
        },
    decreases upto,
{
    if upto > 0 {
        let i = upto - 1;
        lemma_pairing_retired(m, nodes, values, direction, grads, k, i);
        if k < i && nodes[k] is Operation && pending(nodes, k, i) {
            lemma_plus_swaps(
                m,
                pairing(m, nodes, values, direction, grads, k, i),
                m.times(grads[k], tangent(m, nodes, values, direction, k)),
                m.times(grads[i], tangent(m, nodes, values, direction, i)),
            );
        }
    }
}

/// One step of the sweep keeps the pairing: what the node at position `k`
/// hands to its operands is worth its own gradient times its derivative.
proof fn lemma_distribute_keeps_pairing<T>(
    m: Model<T>,
    nodes: Seq<Node<T>>,
    values: Seq<T>,
    direction: Seq<T>,
    grads: Seq<T>,
    k: int,
)
    requires
        exact(m),
        0 <= k < nodes.len(),
        grads.len() == nodes.len(),
        nodes[k].precedes(k),
        !nodes[k].blocks_backward(),
    ensures
        pairing(
            m,
            nodes,
            values,
            direction,
            distribute(m, nodes[k], values, grads, k),
            k,
            nodes.len() as int,
        ) == pairing(m, nodes, values, direction, grads, k + 1, nodes.len() as int),
{
    let n = nodes.len() as int;
    let whole = pairing(m, nodes, values, direction, grads, k, n);
    lemma_pairing_retired(m, nodes, values, direction, grads, k, n);
    match nodes[k] {
        Node::Operation(node) => {
            let l = node.left_id.0 as int;
            let r = node.right_id.0 as int;
            let g = grads[k];
            let at_l = tangent(m, nodes, values, direction, l);
            let at_r = tangent(m, nodes, values, direction, r);
            let at_k = tangent(m, nodes, values, direction, k);
            let share_l = contribution(m, node.operation, values[l], values[r], g);
            let share_r = contribution(m, node.operation, values[r], values[l], g);
            let first = grads.update(l, m.plus(grads[l], share_l));
            lemma_pairing_raised(m, nodes, values, direction, grads, k, n, l, share_l);
            assert(pairing(m, nodes, values, direction, first, k, n) == m.plus(
                whole,
                m.times(share_l, at_l),
            ));
            match node.operation {
                Operation::Add => {
                    lemma_pairing_raised(m, nodes, values, direction, first, k, n, r, share_r);
                    lemma_plus_associates(m, whole, m.times(g, at_l), m.times(g, at_r));
                    lemma_times_distributes(m, g, at_l, at_r);
                },
                Operation::Mul => {
                    lemma_pairing_raised(m, nodes, values, direction, first, k, n, r, share_r);
                    lemma_plus_associates(
                        m,
                        whole,
                        m.times(share_l, at_l),
                        m.times(share_r, at_r),
                    );
                    lemma_times_commutes(m, values[r], g);
                    lemma_times_associates(m, g, values[r], at_l);
                    lemma_times_commutes(m, values[l], g);
                    lemma_times_associates(m, g, values[l], at_r);
                    lemma_times_distributes(m, g, m.times(values[r], at_l), m.times(values[l], at_r));
                },
                Operation::Relu => {
                    if !(m.positive)(values[l]) {
                        lemma_times_zero(m, at_l);
                        lemma_times_zero(m, g);
                    }
                },
                _ => {},
            }
        },
        _ => {},
    }
}

/// The sweep keeps the pairing from its first step to its last.
proof fn lemma_propagate_keeps_pairing<T>(
    m: Model<T>,
    nodes: Seq<Node<T>>,
    values: Seq<T>,
    direction: Seq<T>,
    grads: Seq<T>,
    from: int,
)
    requires
        exact(m),
        0 <= from <= nodes.len(),
        grads.len() == nodes.len(),
        forall|i: int| 0 <= i < nodes.len() ==> (#[trigger] nodes[i]).precedes(i),
        forall|i: int| 0 <= i < nodes.len() ==> !(#[trigger] nodes[i]).blocks_backward(),
    ensures
        pairing(
            m,
            nodes,
            values,
            direction,
            propagate(m, nodes, values, grads, from),
            from,
            nodes.len() as int,
        ) == pairing(m, nodes, values, direction, grads, nodes.len() as int, nodes.len() as int),
    decreases nodes.len() - from,
{
    if from < nodes.len() {
        lemma_propagate_keeps_pairing(m, nodes, values, direction, grads, from + 1);
        lemma_propagate_len(m, nodes, values, grads, from + 1);
        lemma_distribute_keeps_pairing(
            m,
            nodes,
            values,
            direction,
            propagate(m, nodes, values, grads, from + 1),
            from,
        );
    }
}

/// `len` zeros.
pub open spec fn zeros<T>(m: Model<T>, len: nat) -> Seq<T> {
    Seq::new(len, |i: int| m.zero)
}

/// The direction in which the node at position `x` changes at the rate one
/// and no other node changes.
pub open spec fn towards<T>(m: Model<T>, len: nat, x: int) -> Seq<T> {
    zeros(m, len).update(x, (m.number)(1))
}

/// The reverse sweep is the adjoint of the forward derivative. In exact
/// arithmetic, and where the sweep can differentiate every operation, the
/// gradients that the inputs and immediates hold after the sweep, each
/// times the rate at which its node changes, sum to the gradients that all
/// the nodes held before the sweep, each times the derivative of its node.
pub proof fn lemma_sweep_is_adjoint<T>(
    m: Model<T>,
    nodes: Seq<Node<T>>,
    values: Seq<T>,
    direction: Seq<T>,
    grads: Seq<T>,
)
    requires
        exact(m),
        grads.len() == nodes.len(),
        forall|i: int| 0 <= i < nodes.len() ==> (#[trigger] nodes[i]).precedes(i),
        forall|i: int| 0 <= i < nodes.len() ==> !(#[trigger] nodes[i]).blocks_backward(),
    ensures
        pairing(
            m,
            nodes,
            values,
            direction,
            propagate(m, nodes, values, grads, 0),
            0,
            nodes.len() as int,
        ) == pairing(m, nodes, values, direction, grads, nodes.len() as int, nodes.len() as int),
{
    lemma_propagate_keeps_pairing(m, nodes, values, direction, grads, 0);
}

/// With only the node at position `x` changing, the pairing over the inputs
/// and immediates is the gradient of that node.
proof fn lemma_pairing_towards<T>(
    m: Model<T>,
    nodes: Seq<Node<T>>,
    values: Seq<T>,
    grads: Seq<T>,
    x: int,
    upto: int,
)
    requires
        exact(m),
        0 <= x < nodes.len(),
        !(nodes[x] is Operation),
        upto <= nodes.len(),
    ensures
        pairing(m, nodes, values, towards(m, nodes.len(), x), grads, 0, upto) == if x < upto {
            grads[x]
        } else {
            m.zero
        },
    decreases upto,
{
    if upto > 0 {
        let i = upto - 1;
        lemma_pairing_towards(m, nodes, values, grads, x, i);
        if pending(nodes, 0, i) {
            if i == x {
                lemma_times_one(m, grads[x]);
                lemma_plus_zero(m, grads[x]);
            } else {
                lemma_times_zero(m, grads[i]);
                lemma_plus_zero(m, grads[x]);
                lemma_plus_zero(m, m.zero);
            }
        }
    }
}

/// With only the node at position `o` holding a gradient, the pairing over
/// all the nodes is that gradient times the derivative of the node.
proof fn lemma_pairing_of_seed<T>(
    m: Model<T>,
    nodes: Seq<Node<T>>,
    values: Seq<T>,
    direction: Seq<T>,
    o: int,
    seed: T,
    upto: int,
)
    requires
        exact(m),
        0 <= o < nodes.len(),
        upto <= nodes.len(),
    ensures
        pairing(
            m,
            nodes,
            values,
            direction,
            zeros(m, nodes.len()).update(o, seed),
            nodes.len() as int,
            upto,
        ) == if o < upto {
            m.times(seed, tangent(m, nodes, values, direction, o))
        } else {
            m.zero
        },
    decreases upto,
{
    if upto > 0 {
        let i = upto - 1;
        lemma_pairing_of_seed(m, nodes, values, direction, o, seed, i);
        let at_i = tangent(m, nodes, values, direction, i);
        let at_o = tangent(m, nodes, values, direction, o);
        if i == o {
            lemma_plus_zero(m, m.times(seed, at_o));
        } else {
            lemma_times_zero(m, at_i);
            lemma_plus_zero(m, m.times(seed, at_o));
            lemma_plus_zero(m, m.zero);
        }
    }
}

/// Gradients are derivatives. In exact arithmetic, and where the sweep can
/// differentiate every operation, a reverse sweep from zero gradients and
/// one seed at the node `output` leaves in every input and immediate the
/// seed times the derivative of `output` with respect to that node.
pub proof fn lemma_gradient_is_derivative<T>(
    m: Model<T>,
    nodes: Seq<Node<T>>,
    values: Seq<T>,
    leaf: int,
    output: NodeId,
    seed: T,
)
    requires
        exact(m),
        forall|i: int| 0 <= i < nodes.len() ==> (#[trigger] nodes[i]).precedes(i),
        forall|i: int| 0 <= i < nodes.len() ==> !(#[trigger] nodes[i]).blocks_backward(),
        0 <= leaf < nodes.len(),
        !(nodes[leaf] is Operation),
        output.0 < nodes.len(),
    ensures
        propagate(
            m,
            nodes,
            values,
            seeded(m, zeros(m, nodes.len()), seq![(output, seed)]),
            0,
        )[leaf] == m.times(
            seed,
            tangent(m, nodes, values, towards(m, nodes.len(), leaf), output.0 as int),
        ),
{
    let n = nodes.len();
    let none = zeros(m, n);
    let seeds = seq![(output, seed)];
    let direction = towards(m, n, leaf);
    assert(seeds.drop_last() =~= Seq::<(NodeId, T)>::empty());
    assert(seeded(m, none, seeds.drop_last()) == none);
    lemma_plus_zero(m, seed);
    let start = none.update(output.0 as int, seed);
    assert(seeded(m, none, seeds) == start);
    let swept = propagate(m, nodes, values, start, 0);
    lemma_sweep_is_adjoint(m, nodes, values, direction, start);
    lemma_pairing_towards(m, nodes, values, swept, leaf, n as int);
    lemma_pairing_of_seed(m, nodes, values, direction, output.0 as int, seed, n as int);
}

} // verus!
