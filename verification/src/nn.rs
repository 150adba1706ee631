//! A multi-layer perceptron assembled from graph fragments.

use vstd::prelude::*;
use vstd::slice::slice_subrange;
use crate::builder::GraphBuilder;
use crate::backward::{propagate, seeded};
use crate::graph::{
    initial_value, lemma_last_blocking, lemma_union_of_member, settled_upto, union_of, RunnableGraph,
};
use crate::node::{IdGenerator, Node, NodeId, Operation};
use crate::optimiser::Optimiser;
use crate::scalar::{Arithmetic, Model};

verus! {

/// The handle with the number `at`.
pub open spec fn handle(at: int) -> NodeId {
    NodeId(at as usize)
}

/// The node maps of the fragments, in order.
pub open spec fn views<T>(fragments: Seq<GraphBuilder<T>>) -> Seq<Map<NodeId, Node<T>>> {
    fragments.map_values(|g: GraphBuilder<T>| g@)
}

/// The roots of the fragments, in order.
pub open spec fn roots<T>(fragments: Seq<GraphBuilder<T>>) -> Seq<NodeId> {
    fragments.map_values(|g: GraphBuilder<T>| g.root)
}

/// The fragment `weight * input`, whose weight gets the handle `at` and whose
/// product the handle `at + 1`. `input` holds the nodes of the input and
/// `root` is its root.
pub open spec fn weighted<T: Copy>(
    input: Map<NodeId, Node<T>>,
    root: NodeId,
    weight: T,
    at: int,
) -> Map<NodeId, Node<T>> {
    input.insert(handle(at), Node::Immediate(weight)).insert(
        handle(at + 1),
        GraphBuilder::<T>::joint(Operation::Mul, handle(at), root),
    )
}

/// The handle of the sum of the first `upto` products of a neuron with `n`
/// inputs whose first weight has the handle `base`.
pub open spec fn sum_root(base: int, n: int, upto: int) -> int {
    if upto <= 1 {
        base + 1
    } else {
        base + 2 * n + upto - 2
    }
}

/// The fragment that sums the first `upto` products `weights[k] * inputs[k]`,
/// from the left. The products take the handles from `base` on, two each;
/// the sums take the handles after all the products. `inputs` holds the
/// nodes of each input and `roots` the root of each.
pub open spec fn summed<T: Copy>(
    inputs: Seq<Map<NodeId, Node<T>>>,
    roots: Seq<NodeId>,
    weights: Seq<T>,
    base: int,
    upto: int,
) -> Map<NodeId, Node<T>>
    decreases upto,
{
    if upto <= 1 {
        weighted(inputs[0], roots[0], weights[0], base)
    } else {
        summed(inputs, roots, weights, base, upto - 1).union_prefer_right(
            weighted(inputs[upto - 1], roots[upto - 1], weights[upto - 1], base + 2 * (upto - 1)),
        ).insert(
            handle(sum_root(base, inputs.len() as int, upto)),
            GraphBuilder::<T>::joint(
                Operation::Add,
                handle(sum_root(base, inputs.len() as int, upto - 1)),
                handle(base + 2 * (upto - 1) + 1),
            ),
        )
    }
}

/// The number of nodes that a neuron with `n` inputs adds to those of its
/// inputs.
pub open spec fn neuron_size(n: int, non_linearity: bool) -> int {
    3 * n + 1 + if non_linearity {
        2int
    } else {
        0int
    }
}

/// The fragment of a neuron: `bias` plus the sum of the weighted inputs,
/// rectified where `non_linearity` is set. Its nodes take the handles from
/// `base` on, and the last of them is its root. `inputs` holds the nodes of
/// each input and `roots` the root of each.
pub open spec fn neuron_map<T: Copy>(
    inputs: Seq<Map<NodeId, Node<T>>>,
    roots: Seq<NodeId>,
    weights: Seq<T>,
    bias: T,
    non_linearity: bool,
    zero: T,
    base: int,
) -> Map<NodeId, Node<T>> {
    let n = inputs.len() as int;
    let biased = summed(inputs, roots, weights, base, n).insert(
        handle(base + 3 * n - 1),
        Node::Immediate(bias),
    ).insert(
        handle(base + 3 * n),
        GraphBuilder::<T>::joint(
            Operation::Add,
            handle(base + 3 * n - 1),
            handle(sum_root(base, n, n)),
        ),
    );
    if non_linearity {
        biased.insert(handle(base + 3 * n + 1), Node::Immediate(zero)).insert(
            handle(base + 3 * n + 2),
            GraphBuilder::<T>::joint(
                Operation::Relu,
                handle(base + 3 * n),
                handle(base + 3 * n + 1),
            ),
        )
    } else {
        biased
    }
}

/// The fragment `f` extends the first `upto` of `inputs` by nodes with handles
/// from `base` on: it holds every node of those inputs, each of its nodes
/// below `base` is a node of one of them, and each of its nodes from `base`
/// on is an immediate or an operation that the reverse sweep can
/// differentiate, with operands of smaller handles.
pub open spec fn extends<T: Copy>(
    f: Map<NodeId, Node<T>>,
    inputs: Seq<Map<NodeId, Node<T>>>,
    upto: int,
    base: int,
) -> bool {
    &&& forall|k: int, id: NodeId|
        0 <= k < upto && #[trigger] inputs[k].contains_key(id) ==> f.contains_key(id)
    &&& forall|id: NodeId|
        #[trigger] f.contains_key(id) && id.0 < base ==> exists|k: int|
            0 <= k < upto && #[trigger] inputs[k].contains_key(id) && f[id] == inputs[k][id]
    &&& forall|id: NodeId|
        #[trigger] f.contains_key(id) && id.0 >= base ==> !f[id].blocks_backward() && !(f[id] is Input)
            && f[id].precedes(id.0 as int)
}

/// Every input holds handles below `base` only, its root among them.
pub open spec fn below<T>(inputs: Seq<Map<NodeId, Node<T>>>, roots: Seq<NodeId>, base: int) -> bool {
    &&& roots.len() == inputs.len()
    &&& forall|k: int| 0 <= k < inputs.len() ==> (#[trigger] roots[k]).0 < base
    &&& forall|k: int, id: NodeId|
        0 <= k < inputs.len() && #[trigger] inputs[k].contains_key(id) ==> id.0 < base
}

/// The sum of the first `upto` products extends the inputs it reads, and
/// holds a node under every handle of its products and of its sums.
pub proof fn lemma_summed_extends<T: Copy>(
    inputs: Seq<Map<NodeId, Node<T>>>,
    roots: Seq<NodeId>,
    weights: Seq<T>,
    base: int,
    upto: int,
)
    requires
        1 <= upto <= inputs.len(),
        0 <= base,
        base + 3 * inputs.len() <= usize::MAX,
        below(inputs, roots, base),
    ensures
        extends(summed(inputs, roots, weights, base, upto), inputs, upto, base),
        forall|at: int|
            base <= at < base + 2 * upto || base + 2 * inputs.len() <= at < base + 2 * inputs.len()
                + upto - 1 ==> summed(inputs, roots, weights, base, upto).contains_key(
                #[trigger] handle(at),
            ),
        forall|id: NodeId|
            #[trigger] summed(inputs, roots, weights, base, upto).contains_key(id) ==> id.0 < base + 2
                * inputs.len() + upto - 1,
    decreases upto,
{
    let n = inputs.len() as int;
    let f = summed(inputs, roots, weights, base, upto);
    if upto <= 1 {
        assert(roots[0].0 < base);
        assert forall|at: int| base <= at < base + 2 * upto implies f.contains_key(
            #[trigger] handle(at),
        ) by {
            assert(handle(at) == handle(base) || handle(at) == handle(base + 1));
        }
        assert forall|id: NodeId| #[trigger] f.contains_key(id) && id.0 < base implies exists|k: int|
            0 <= k < upto && #[trigger] inputs[k].contains_key(id) && f[id] == inputs[k][id] by {
            assert(inputs[0].contains_key(id));
        }
        assert forall|id: NodeId| #[trigger] f.contains_key(id) implies id.0 < base + 2 * n + upto
            - 1 by {
            if id != handle(base) && id != handle(base + 1) {
                assert(inputs[0].contains_key(id));
            }
        }
    } else {
        lemma_summed_extends(inputs, roots, weights, base, upto - 1);
        let before = summed(inputs, roots, weights, base, upto - 1);
        let input = inputs[upto - 1];
        let at_weight = base + 2 * (upto - 1);
        let product = weighted(input, roots[upto - 1], weights[upto - 1], at_weight);
        let at_sum = sum_root(base, n, upto);
        assert(roots[upto - 1].0 < base);
        assert(f == before.union_prefer_right(product).insert(
            handle(at_sum),
            GraphBuilder::<T>::joint(
                Operation::Add,
                handle(sum_root(base, n, upto - 1)),
                handle(at_weight + 1),
            ),
        ));
        assert forall|at: int|
            base <= at < base + 2 * upto || base + 2 * n <= at < base + 2 * n + upto
                - 1 implies f.contains_key(#[trigger] handle(at)) by {
            if at == at_weight || at == at_weight + 1 {
                assert(product.contains_key(handle(at)));
            } else if at == at_sum {
            } else {
                assert(before.contains_key(handle(at)));
            }
        }
        assert forall|k: int, id: NodeId|
            0 <= k < upto && #[trigger] inputs[k].contains_key(id) implies f.contains_key(id) by {
            if k == upto - 1 {
                assert(product.contains_key(id));
            } else {
                assert(before.contains_key(id));
            }
        }
        assert forall|id: NodeId| #[trigger] f.contains_key(id) && id.0 < base implies exists|k: int|
            0 <= k < upto && #[trigger] inputs[k].contains_key(id) && f[id] == inputs[k][id] by {
            if product.contains_key(id) {
                assert(input.contains_key(id));
                assert(inputs[upto - 1].contains_key(id) && f[id] == inputs[upto - 1][id]);
            } else {
                assert(before.contains_key(id));
                let k = choose|k: int|
                    0 <= k < upto - 1 && #[trigger] inputs[k].contains_key(id) && before[id]
                        == inputs[k][id];
                assert(inputs[k].contains_key(id) && f[id] == inputs[k][id]);
            }
        }
        assert forall|id: NodeId| #[trigger] f.contains_key(id) && id.0 >= base implies !f[id].blocks_backward()
            && !(f[id] is Input) && f[id].precedes(id.0 as int) by {
            if id == handle(at_sum) {
            } else if product.contains_key(id) {
                if id != handle(at_weight) && id != handle(at_weight + 1) {
                    assert(input.contains_key(id));
                }
            } else {
                assert(before.contains_key(id));
            }
        }
        assert forall|id: NodeId| #[trigger] f.contains_key(id) implies id.0 < base + 2 * n + upto
            - 1 by {
            if id == handle(at_sum) {
            } else if product.contains_key(id) {
                if id != handle(at_weight) && id != handle(at_weight + 1) {
                    assert(input.contains_key(id));
                }
            } else {
                assert(before.contains_key(id));
            }
        }
    }
}

/// A neuron's fragment extends its inputs, and holds a node under every
/// handle from `base` up to its root, and under no other handle from `base`
/// on.
pub proof fn lemma_neuron_extends<T: Copy>(
    inputs: Seq<Map<NodeId, Node<T>>>,
    roots: Seq<NodeId>,
    weights: Seq<T>,
    bias: T,
    non_linearity: bool,
    zero: T,
    base: int,
)
    requires
        1 <= inputs.len(),
        0 <= base,
        base + neuron_size(inputs.len() as int, non_linearity) <= usize::MAX,
        below(inputs, roots, base),
    ensures
        extends(
            neuron_map(inputs, roots, weights, bias, non_linearity, zero, base),
            inputs,
            inputs.len() as int,
            base,
        ),
        forall|at: int|
            base <= at < base + neuron_size(inputs.len() as int, non_linearity) ==> neuron_map(
                inputs,
                roots,
                weights,
                bias,
                non_linearity,
                zero,
                base,
            ).contains_key(#[trigger] handle(at)),
        forall|id: NodeId|
            #[trigger] neuron_map(inputs, roots, weights, bias, non_linearity, zero, base).contains_key(
                id,
            ) ==> id.0 < base + neuron_size(inputs.len() as int, non_linearity),
{
    let n = inputs.len() as int;
    let f = neuron_map(inputs, roots, weights, bias, non_linearity, zero, base);
    let sum = summed(inputs, roots, weights, base, n);
    lemma_summed_extends(inputs, roots, weights, base, n);
    assert forall|at: int| base <= at < base + neuron_size(n, non_linearity) implies f.contains_key(
        #[trigger] handle(at),
    ) by {
        if at < base + 3 * n - 1 {
            assert(sum.contains_key(handle(at)));
        }
    }
    assert forall|k: int, id: NodeId|
        0 <= k < n && #[trigger] inputs[k].contains_key(id) implies f.contains_key(id) by {
        assert(sum.contains_key(id));
    }
    assert forall|id: NodeId| #[trigger] f.contains_key(id) && id.0 < base implies exists|k: int|
        0 <= k < n && #[trigger] inputs[k].contains_key(id) && f[id] == inputs[k][id] by {
        assert(sum.contains_key(id));
        let k = choose|k: int|
            0 <= k < n && #[trigger] inputs[k].contains_key(id) && sum[id] == inputs[k][id];
        assert(inputs[k].contains_key(id) && f[id] == inputs[k][id]);
    }
    assert forall|id: NodeId| #[trigger] f.contains_key(id) && id.0 >= base implies !f[id].blocks_backward()
        && !(f[id] is Input) && f[id].precedes(id.0 as int) by {
        if id.0 < base + 3 * n - 1 {
            assert(sum.contains_key(id));
        }
    }
    assert forall|id: NodeId| #[trigger] f.contains_key(id) implies id.0 < base + neuron_size(
        n,
        non_linearity,
    ) by {
        if sum.contains_key(id) {
            assert(id.0 < base + 3 * n - 1);
        }
    }
}

/// One unit of a layer: a weighted sum of its inputs plus a bias.
#[derive(Debug)]
pub struct Neuron<T> {
    /// The fragment that computes the unit's output.
    pub op: GraphBuilder<T>,
}

impl<T: Copy> Neuron<T> {
    /// The neuron over `inputs` with one weight per input and a bias.
    pub fn new<B, P, R, N>(
        inputs: &Vec<GraphBuilder<T>>,
        weights: &[T],
        bias: T,
        non_linearity: bool,
        ids: &mut IdGenerator,
        arith: &Arithmetic<T, B, P, R, N>,
    ) -> (out: Neuron<T>) where
        B: Fn(Operation, T, T) -> T,
        P: Fn(T) -> bool,
        R: Fn(T) -> T,
        N: Fn(u64) -> T,

        requires
            inputs.len() >= 1,
            weights.len() == inputs.len(),
            forall|k: int|
                0 <= k < inputs.len() ==> (#[trigger] inputs[k]).wf() && inputs[k].root.0 < old(ids).upcoming(),
            old(ids).upcoming() + neuron_size(inputs.len() as int, non_linearity) <= usize::MAX,
        ensures
            out.op.wf(),
            final(ids).upcoming() == old(ids).upcoming() + neuron_size(
                inputs.len() as int,
                non_linearity,
            ),
            out.op.root.0 == final(ids).upcoming() - 1,
            out.op@ == neuron_map(
                views(inputs@),
                roots(inputs@),
                weights@,
                bias,
                non_linearity,
                arith.zero,
                old(ids).upcoming() as int,
            ),
    {
        let n: usize = inputs.len();
        let ghost base: int = ids.upcoming() as int;
        let mut products: Vec<GraphBuilder<T>> = Vec::new();
        let mut k: usize = 0;
        while k < n
            invariant
                n == inputs.len(),
                weights.len() == n,
                k <= n,
                products.len() == k,
                ids.upcoming() == base + 2 * k,
                base + 3 * n + 1 <= usize::MAX,
                forall|a: int|
                    0 <= a < n ==> (#[trigger] inputs[a]).wf() && inputs[a].root.0 < base,
                forall|a: int|
                    0 <= a < k ==> {
                        &&& (#[trigger] products[a]).wf()
                        &&& products[a].root.0 == base + 2 * a + 1
                        &&& products[a]@ == weighted(inputs[a]@, inputs[a].root, weights[a], base + 2 * a)
                    },
            decreases n - k,
        {
            let product = GraphBuilder::with_immediate(Operation::Mul, weights[k], &inputs[k], ids);
            products.push(product);
            k += 1;
        }
        let mut acc: GraphBuilder<T> = products[0].clone();
        let mut j: usize = 1;
        while j < n
            invariant
                n == inputs.len(),
                weights.len() == n,
                1 <= j <= n,
                products.len() == n,
                ids.upcoming() == base + 2 * n + j - 1,
                base + 3 * n + 1 <= usize::MAX,
                forall|a: int|
                    0 <= a < n ==> {
                        &&& (#[trigger] products[a]).wf()
                        &&& products[a].root.0 == base + 2 * a + 1
                        &&& products[a]@ == weighted(inputs[a]@, inputs[a].root, weights[a], base + 2 * a)
                    },
                acc.wf(),
                acc.root.0 == sum_root(base, n as int, j as int),
                acc@ == summed(views(inputs@), roots(inputs@), weights@, base, j as int),
            decreases n - j,
        {
            acc = GraphBuilder::combine(Operation::Add, &acc, &products[j], ids);
            j += 1;
        }
        let biased = GraphBuilder::with_immediate(Operation::Add, bias, &acc, ids);
        if non_linearity {
            Neuron { op: biased.relu(ids, arith) }
        } else {
            Neuron { op: biased }
        }
    }
}

/// The number of nodes in the first `layers` layers of a network with the
/// layer widths `sizes`: one per input, and per unit of a later layer the
/// nodes of a neuron over the layer before, rectified in all but the last
/// layer.
pub open spec fn node_count(sizes: Seq<usize>, layers: int) -> int
    decreases layers,
{
    if layers <= 0 {
        0
    } else if layers == 1 {
        sizes[0] as int
    } else {
        node_count(sizes, layers - 1) + sizes[layers - 1] * neuron_size(
            sizes[layers - 2] as int,
            layers != sizes.len(),
        )
    }
}

/// The number of weights and biases in the first `layers` layers of a
/// network with the layer widths `sizes`: per unit of a later layer one
/// weight for each unit of the layer before, and a bias.
pub open spec fn weight_count(sizes: Seq<usize>, layers: int) -> int
    decreases layers,
{
    if layers <= 1 {
        0
    } else {
        weight_count(sizes, layers - 1) + sizes[layers - 1] * (sizes[layers - 2] + 1)
    }
}

/// The roots of the units of layer `i` of a network with the layer widths
/// `sizes`: input `k` has the handle `k`, and the root of a neuron is the
/// last of its nodes.
pub open spec fn layer_roots(sizes: Seq<usize>, i: int) -> Seq<NodeId> {
    if i <= 0 {
        Seq::new(sizes[0] as nat, |k: int| handle(k))
    } else {
        let per = neuron_size(sizes[i - 1] as int, i + 1 != sizes.len());
        Seq::new(sizes[i] as nat, |j: int| handle(node_count(sizes, i) + (j + 1) * per - 1))
    }
}

/// The nodes of the units of layer `i` of a network with the layer widths
/// `sizes`. A unit of the first layer is an input. Unit `j` of a later
/// layer is a neuron over all the units of the layer before, rectified in
/// all but the last layer; its nodes follow those of unit `j - 1`, and its
/// weights and its bias follow those of unit `j - 1` in `weights`.
pub open spec fn layer_maps<T: Copy>(sizes: Seq<usize>, weights: Seq<T>, zero: T, i: int) -> Seq<
    Map<NodeId, Node<T>>,
>
    decreases i,
{
    if i <= 0 {
        Seq::new(
            sizes[0] as nat,
            |k: int| Map::<NodeId, Node<T>>::empty().insert(handle(k), Node::Input),
        )
    } else {
        let before = layer_maps(sizes, weights, zero, i - 1);
        let fan_in = sizes[i - 1] as int;
        let rectified = i + 1 != sizes.len();
        Seq::new(
            sizes[i] as nat,
            |j: int|
                neuron_map(
                    before,
                    layer_roots(sizes, i - 1),
                    weights.subrange(
                        weight_count(sizes, i) + j * (fan_in + 1),
                        weight_count(sizes, i) + j * (fan_in + 1) + fan_in,
                    ),
                    weights[weight_count(sizes, i) + j * (fan_in + 1) + fan_in],
                    rectified,
                    zero,
                    node_count(sizes, i) + j * neuron_size(fan_in, rectified),
                ),
        )
    }
}

/// The nodes of all the maps, by handle. Where several maps hold a handle,
/// the node of the last of them is kept.
pub open spec fn union_maps<T>(maps: Seq<Map<NodeId, Node<T>>>) -> Map<NodeId, Node<T>>
    decreases maps.len(),
{
    if maps.len() == 0 {
        Map::empty()
    } else {
        union_maps(maps.drop_last()).union_prefer_right(maps.last())
    }
}

/// The nodes of the network with the layer widths `sizes` and the weights
/// and biases `weights`: those of the units of its last layer.
pub open spec fn network<T: Copy>(sizes: Seq<usize>, weights: Seq<T>, zero: T) -> Map<NodeId, Node<T>> {
    union_maps(layer_maps(sizes, weights, zero, sizes.len() - 1))
}

/// The union of fragments is the union of their node maps.
pub proof fn lemma_union_of_views<T: Copy>(
    graphs: Seq<&GraphBuilder<T>>,
    maps: Seq<Map<NodeId, Node<T>>>,
)
    requires
        maps.len() == graphs.len(),
        forall|k: int| 0 <= k < graphs.len() ==> #[trigger] maps[k] == graphs[k]@,
    ensures
        union_of(graphs) == union_maps(maps),
    decreases graphs.len(),
{
    if graphs.len() > 0 {
        lemma_union_of_views(graphs.drop_last(), maps.drop_last());
        assert(maps.last() == graphs.last()@);
    }
}

/// The widths describe a network: at least one layer, and at least one unit
/// in every layer.
pub open spec fn buildable(sizes: Seq<usize>) -> bool {
    &&& sizes.len() >= 1
    &&& forall|i: int| 0 <= i < sizes.len() ==> #[trigger] sizes[i] >= 1
}

/// Neither count shrinks from layer to layer, and there are no more weights
/// than nodes.
pub proof fn lemma_counts_grow(sizes: Seq<usize>, fewer: int, more: int)
    requires
        0 <= fewer <= more <= sizes.len(),
    ensures
        0 <= node_count(sizes, fewer) <= node_count(sizes, more),
        0 <= weight_count(sizes, fewer) <= weight_count(sizes, more),
        weight_count(sizes, more) <= node_count(sizes, more),
    decreases more,
{
    if more > 0 {
        if fewer < more {
            lemma_counts_grow(sizes, fewer, more - 1);
        } else {
            lemma_counts_grow(sizes, fewer - 1, more - 1);
        }
        if more > 1 {
            let width = sizes[more - 1] as int;
            let fan_in = sizes[more - 2] as int;
            let per = neuron_size(fan_in, more != sizes.len());
            assert(0 <= width * (fan_in + 1) <= width * per) by (nonlinear_arith)
                requires
                    0 <= width,
                    0 <= fan_in + 1 <= per,
            ;
        }
    }
}

/// One of the fragments of `layer` holds a node under `id`.
pub open spec fn holds<T: Copy>(layer: Seq<GraphBuilder<T>>, id: NodeId) -> bool {
    exists|j: int| 0 <= j < layer.len() && #[trigger] layer[j]@.contains_key(id)
}

/// What holds of every layer while a network is assembled, with `n_in`
/// inputs and the handles below `upcoming` issued: the fragments are well
/// formed and hold their roots, together they hold every handle issued, the
/// first `n_in` handles are inputs, and no node blocks the reverse sweep.
pub open spec fn layer_ok<T: Copy>(layer: Seq<GraphBuilder<T>>, n_in: int, upcoming: int) -> bool {
    &&& forall|j: int|
        0 <= j < layer.len() ==> (#[trigger] layer[j]).wf() && layer[j].root.0 < upcoming
            && layer[j]@.contains_key(layer[j].root)
    &&& forall|j: int, id: NodeId|
        0 <= j < layer.len() && #[trigger] layer[j]@.contains_key(id) ==> !layer[j]@[id].blocks_backward()
            && (id.0 < n_in ==> layer[j]@[id] is Input)
    &&& forall|id: NodeId| id.0 < upcoming ==> #[trigger] holds(layer, id)
}

/// `values` with its first entries replaced by `inputs`.
pub open spec fn fed<T>(values: Seq<T>, inputs: Seq<T>) -> Seq<T> {
    Seq::new(
        values.len(),
        |i: int|
            if i < inputs.len() {
                inputs[i]
            } else {
                values[i]
            },
    )
}

/// Each output paired with its gradient, as far as both are given.
pub open spec fn paired<T>(outputs: Seq<NodeId>, grads: Seq<T>) -> Seq<(NodeId, T)> {
    Seq::new(
        if outputs.len() <= grads.len() {
            outputs.len()
        } else {
            grads.len()
        },
        |k: int| (outputs[k], grads[k]),
    )
}

/// A feed-forward network: a frozen graph with the handles of its inputs and
/// of its outputs.
#[derive(Debug)]
pub struct MultiLayerPerceptron<T> {
    /// The input nodes, in the order of the features.
    pub inputs: Vec<NodeId>,
    /// The output nodes, in the order of the units of the last layer.
    pub outputs: Vec<NodeId>,
    /// The network's graph.
    pub graph: RunnableGraph<T>,
}

impl<T: Copy> MultiLayerPerceptron<T> {
    /// The network's invariant: input `k` is the input node with handle `k`,
    /// the outputs are those of the graph, and the reverse sweep can
    /// differentiate every operation.
    pub open spec fn wf(&self) -> bool {
        &&& self.graph.wf()
        &&& self.inputs.len() <= self.graph.nodes.len()
        &&& forall|k: int|
            0 <= k < self.inputs.len() ==> #[trigger] self.inputs[k] == handle(k) && self.graph.nodes[k] is Input
        &&& self.outputs@ == self.graph.outputs@
        &&& self.graph.blocked is None
    }

    /// The network with the layer widths `sizes`: one input per unit of the
    /// first layer, and in every later layer one neuron per unit over all
    /// the units of the layer before, rectified in all but the last layer.
    /// `weights` holds, layer by layer and neuron by neuron, the neuron's
    /// weights in the order of its inputs and after them its bias.
    pub fn new<B, P, R, N>(sizes: Vec<usize>, weights: Vec<T>, arith: &Arithmetic<T, B, P, R, N>) -> (out:
        MultiLayerPerceptron<T>) where
        B: Fn(Operation, T, T) -> T,
        P: Fn(T) -> bool,
        R: Fn(T) -> T,
        N: Fn(u64) -> T,

        requires
            buildable(sizes@),
            node_count(sizes@, sizes.len() as int) <= usize::MAX,
            weights.len() == weight_count(sizes@, sizes.len() as int),
        ensures
            out.wf(),
            out.inputs@ == layer_roots(sizes@, 0),
            out.outputs@ == layer_roots(sizes@, sizes.len() - 1),
            out.graph.nodes.len() == node_count(sizes@, sizes.len() as int),
            forall|i: int|
                0 <= i < out.graph.nodes.len() ==> #[trigger] out.graph.nodes[i] == network(
                    sizes@,
                    weights@,
                    arith.zero,
                )[handle(i)],
            forall|i: int|
                0 <= i < out.graph.data.len() ==> (#[trigger] out.graph.data[i]).value == initial_value(
                    out.graph.nodes[i],
                    arith.zero,
                ) && out.graph.data[i].gradient == arith.zero,
    {
        let layers: usize = sizes.len();
        let n_in: usize = sizes[0];
        let mut ids = IdGenerator::new();
        let graph: GraphBuilder<T> = GraphBuilder::new();
        let mut layer: Vec<GraphBuilder<T>> = Vec::new();
        let mut inputs: Vec<NodeId> = Vec::new();
        proof {
            lemma_counts_grow(sizes@, 1, layers as int);
        }
        let mut k: usize = 0;
        while k < n_in
            invariant
                sizes.len() >= 1,
                k <= n_in,
                n_in == sizes[0],
                node_count(sizes@, 1) <= usize::MAX,
                ids.upcoming() == k,
                inputs.len() == k,
                layer.len() == k,
                forall|a: int| 0 <= a < k ==> #[trigger] inputs[a] == handle(a),
                forall|a: int|
                    0 <= a < k ==> (#[trigger] layer[a]).wf() && layer[a].root == handle(a) && layer[a]@
                        == Map::<NodeId, Node<T>>::empty().insert(handle(a), Node::Input),
            decreases n_in - k,
        {
            let input = graph.create_input(&mut ids);
            inputs.push(input.id);
            layer.push(input.builder);
            k += 1;
        }
        proof {
            assert forall|id: NodeId| id.0 < n_in implies #[trigger] holds(layer@, id) by {
                assert(layer@[id.0 as int]@.contains_key(id));
            }
            assert(layer_ok(layer@, n_in as int, n_in as int));
            assert(views(layer@) =~= layer_maps(sizes@, weights@, arith.zero, 0));
            assert(roots(layer@) =~= layer_roots(sizes@, 0));
            assert(inputs@ =~= layer_roots(sizes@, 0));
        }
        let mut used: usize = 0;
        let mut i: usize = 1;
        while i < layers
            invariant
                layers == sizes.len(),
                1 <= i <= layers,
                buildable(sizes@),
                node_count(sizes@, layers as int) <= usize::MAX,
                weights.len() == weight_count(sizes@, layers as int),
                n_in == sizes[0],
                layer.len() == sizes[i - 1],
                ids.upcoming() == node_count(sizes@, i as int),
                used == weight_count(sizes@, i as int),
                layer_ok(layer@, n_in as int, ids.upcoming() as int),
                views(layer@) == layer_maps(sizes@, weights@, arith.zero, i - 1),
                roots(layer@) == layer_roots(sizes@, i - 1),
            decreases layers - i,
        {
            let non_linearity: bool = i != layers - 1;
            let fan_in: usize = layer.len();
            let width: usize = sizes[i];
            let ghost start: int = ids.upcoming() as int;
            let ghost used_start: int = used as int;
            let ghost per: int = neuron_size(fan_in as int, non_linearity);
            let ghost maps = layer_maps(sizes@, weights@, arith.zero, i as int);
            let ghost tops = layer_roots(sizes@, i as int);
            proof {
                lemma_counts_grow(sizes@, i as int + 1, layers as int);
                lemma_counts_grow(sizes@, 1, i as int);
            }
            let mut next: Vec<GraphBuilder<T>> = Vec::new();
            let mut j: usize = 0;
            while j < width
                invariant
                    layers == sizes.len(),
                    1 <= i < layers,
                    j <= width,
                    width == sizes[i as int],
                    fan_in == layer.len(),
                    fan_in == sizes[i - 1],
                    fan_in >= 1,
                    n_in <= start,
                    start == node_count(sizes@, i as int),
                    used_start == weight_count(sizes@, i as int),
                    per == neuron_size(fan_in as int, non_linearity),
                    non_linearity == (i + 1 != layers),
                    start + width * per <= usize::MAX,
                    used_start + width * (fan_in + 1) <= weights.len(),
                    ids.upcoming() == start + j * per,
                    used == used_start + j * (fan_in + 1),
                    next.len() == j,
                    layer_ok(layer@, n_in as int, start),
                    views(layer@) == layer_maps(sizes@, weights@, arith.zero, i - 1),
                    roots(layer@) == layer_roots(sizes@, i - 1),
                    maps == layer_maps(sizes@, weights@, arith.zero, i as int),
                    tops == layer_roots(sizes@, i as int),
                    forall|a: int|
                        0 <= a < j ==> (#[trigger] next[a]).wf() && next[a].root.0 < ids.upcoming()
                            && next[a]@.contains_key(next[a].root) && next[a]@ == maps[a] && next[a].root
                            == tops[a],
                    forall|a: int, id: NodeId|
                        0 <= a < j && #[trigger] next[a]@.contains_key(id) ==> !next[a]@[id].blocks_backward()
                            && (id.0 < n_in ==> next[a]@[id] is Input),
                    forall|a: int, id: NodeId|
                        0 <= a < j && id.0 < start ==> #[trigger] next[a]@.contains_key(id),
                    forall|id: NodeId| start <= id.0 < ids.upcoming() ==> #[trigger] holds(next@, id),
                decreases width - j,
            {
                let ghost base: int = ids.upcoming() as int;
                proof {
                    assert(j * per + per <= width * per) by (nonlinear_arith)
                        requires
                            0 <= j < width,
                            0 <= per,
                    ;
                    assert(j * (fan_in + 1) + (fan_in + 1) <= width * (fan_in + 1)) by (nonlinear_arith)
                        requires
                            0 <= j < width,
                            0 <= fan_in,
                    ;
                    assert((j + 1) * per == j * per + per) by (nonlinear_arith);
                    assert((j + 1) * (fan_in + 1) == j * (fan_in + 1) + (fan_in + 1)) by (nonlinear_arith);
                }
                let own = slice_subrange(weights.as_slice(), used, used + fan_in);
                let bias = weights[used + fan_in];
                let neuron = Neuron::new(&layer, own, bias, non_linearity, &mut ids, arith);
                proof {
                    let f = neuron.op@;
                    assert(below(views(layer@), roots(layer@), base)) by {
                        assert forall|a: int| 0 <= a < layer@.len() implies (#[trigger] roots(layer@)[a]).0
                            < base by {
                            assert(layer@[a].wf());
                        }
                        assert forall|a: int, id: NodeId|
                            0 <= a < layer@.len() && #[trigger] views(layer@)[a].contains_key(id) implies id.0
                            < base by {
                            assert(layer@[a].wf());
                            assert(layer@[a]@.contains_key(id));
                        }
                    }
                    lemma_neuron_extends(
                        views(layer@),
                        roots(layer@),
                        own@,
                        bias,
                        non_linearity,
                        arith.zero,
                        base,
                    );
                    assert(neuron.op.root == handle(neuron.op.root.0 as int));
                    assert(f == maps[j as int]);
                    assert(neuron.op.root == tops[j as int]);
                    assert forall|id: NodeId| #[trigger] f.contains_key(id) implies !f[id].blocks_backward()
                        && (id.0 < n_in ==> f[id] is Input) by {
                        if id.0 < base {
                            let a = choose|a: int|
                                0 <= a < fan_in && #[trigger] views(layer@)[a].contains_key(id) && f[id]
                                    == views(layer@)[a][id];
                            assert(layer@[a]@.contains_key(id));
                        }
                    }
                    assert forall|id: NodeId| id.0 < start implies #[trigger] f.contains_key(id) by {
                        assert(holds(layer@, id));
                        let a = choose|a: int| 0 <= a < layer@.len() && #[trigger] layer@[a]@.contains_key(id);
                        assert(views(layer@)[a].contains_key(id));
                    }
                    assert forall|id: NodeId| base <= id.0 < base + per implies #[trigger] f.contains_key(
                        id,
                    ) by {
                        assert(id == handle(id.0 as int));
                    }
                }
                let ghost before = next@;
                next.push(neuron.op);
                proof {
                    assert forall|id: NodeId| start <= id.0 < base + per implies #[trigger] holds(
                        next@,
                        id,
                    ) by {
                        if id.0 < base {
                            assert(holds(before, id));
                            let a = choose|a: int|
                                0 <= a < before.len() && #[trigger] before[a]@.contains_key(id);
                            assert(next@[a]@.contains_key(id));
                        } else {
                            assert(next@[j as int]@.contains_key(id));
                        }
                    }
                    assert forall|a: int| 0 <= a < j + 1 implies (#[trigger] next[a]).wf() && next[a].root.0
                        < base + per && next[a]@.contains_key(next[a].root) && next[a]@ == maps[a]
                        && next[a].root == tops[a] by {
                        if a < j {
                            assert(before[a].wf());
                        }
                    }
                    assert forall|a: int, id: NodeId|
                        0 <= a < j + 1 && #[trigger] next[a]@.contains_key(id) implies !next[a]@[id]
                            .blocks_backward() && (id.0 < n_in ==> next[a]@[id] is Input) by {
                        if a < j {
                            assert(before[a]@.contains_key(id));
                        }
                    }
                    assert forall|a: int, id: NodeId|
                        0 <= a < j + 1 && id.0 < start implies #[trigger] next[a]@.contains_key(id) by {
                        if a < j {
                            assert(before[a]@.contains_key(id));
                        }
                    }
                }
                used = used + fan_in + 1;
                j += 1;
            }
            proof {
                assert forall|id: NodeId| id.0 < ids.upcoming() implies #[trigger] holds(next@, id) by {
                    if id.0 < start {
                        assert(next@[0]@.contains_key(id));
                    }
                }
                assert(layer_ok(next@, n_in as int, ids.upcoming() as int));
                assert(views(next@) =~= maps);
                assert(roots(next@) =~= tops);
            }
            layer = next;
            i += 1;
        }
        let mut outputs: Vec<NodeId> = Vec::new();
        let mut graphs: Vec<&GraphBuilder<T>> = Vec::new();
        let mut o: usize = 0;
        while o < layer.len()
            invariant
                o <= layer.len(),
                outputs.len() == o,
                graphs.len() == o,
                forall|a: int| 0 <= a < o ==> #[trigger] outputs[a] == layer[a].root,
                forall|a: int| 0 <= a < o ==> *(#[trigger] graphs[a]) == layer[a],
            decreases layer.len() - o,
        {
            outputs.push(layer[o].root);
            graphs.push(&layer[o]);
            o += 1;
        }
        let ghost all = union_of(graphs@);
        let ghost total: int = ids.upcoming() as int;
        proof {
            lemma_union_of_views(graphs@, views(layer@));
            assert forall|id: NodeId| all.contains_key(id) <==> id.0 < total by {
                lemma_union_of_member(graphs@, id);
                if all.contains_key(id) {
                    let a = choose|a: int| 0 <= a < graphs.len() && (#[trigger] graphs[a])@.contains_key(id);
                    assert(layer[a].wf());
                    assert(layer[a]@.contains_key(id));
                }
                if id.0 < total {
                    assert(holds(layer@, id));
                    let a = choose|a: int| 0 <= a < layer@.len() && #[trigger] layer@[a]@.contains_key(id);
                    assert(graphs[a]@.contains_key(id));
                }
            }
            assert forall|a: int| 0 <= a < graphs.len() implies all.contains_key(
                #[trigger] graphs[a].root,
            ) by {
                assert(layer[a].wf());
            }
            assert forall|a: int| 0 <= a < graphs.len() implies (#[trigger] graphs[a]).wf() by {
                assert(layer[a].wf());
            }
        }
        let frozen = RunnableGraph::new(graphs, arith);
        let net = frozen.unwrap();
        proof {
            assert forall|a: int| 0 <= a < net.nodes.len() implies !(#[trigger] net.nodes[a]).blocks_backward()
                && (a < n_in ==> net.nodes[a] is Input) by {
                let id = NodeId(a as usize);
                lemma_union_of_member(graphs@, id);
                let b = choose|b: int|
                    0 <= b < graphs.len() && (#[trigger] graphs[b])@.contains_key(id) && all[id]
                        == graphs[b]@[id];
                assert(layer[b]@.contains_key(id));
            }
            lemma_last_blocking(net.nodes@, net.nodes.len() as int);
            assert(net.nodes.len() == total) by {
                if net.nodes.len() < total {
                    assert(all.contains_key(NodeId(net.nodes.len())));
                }
                if net.nodes.len() > total {
                    assert(all.contains_key(NodeId(total as usize)));
                }
            }
            assert(net.outputs@ =~= outputs@);
            assert(outputs@ =~= roots(layer@));
            lemma_counts_grow(sizes@, 1, layers as int);
        }
        MultiLayerPerceptron { inputs, outputs, graph: net }
    }

    /// Feeds one value to each input and evaluates the network; returns the
    /// values of the outputs, in their order.
    pub fn forward<B, P, R, N>(&mut self, inputs: &Vec<T>, arith: &Arithmetic<T, B, P, R, N>) -> (out:
        Vec<T>) where
        B: Fn(Operation, T, T) -> T,
        P: Fn(T) -> bool,
        R: Fn(T) -> T,
        N: Fn(u64) -> T,

        requires
            old(self).wf(),
            inputs.len() == old(self).inputs.len(),
            arith.total(),
        ensures
            final(self).wf(),
            final(self).inputs == old(self).inputs,
            final(self).outputs == old(self).outputs,
            final(self).graph.nodes == old(self).graph.nodes,
            final(self).graph.gradients() == old(self).graph.gradients(),
            forall|i: int|
                0 <= i < old(self).graph.nodes.len() && !(old(self).graph.nodes[i] is Operation)
                    ==> #[trigger] final(self).graph.values()[i] == fed(
                    old(self).graph.values(),
                    inputs@,
                )[i],
            forall|m: Model<T>| #[trigger]
                arith.conforms(m) ==> settled_upto(
                    m,
                    old(self).graph.nodes@,
                    fed(old(self).graph.values(), inputs@),
                    final(self).graph.values(),
                    old(self).graph.nodes.len() as int,
                ),
            out.len() == old(self).outputs.len(),
            forall|k: int|
                0 <= k < out.len() ==> #[trigger] out[k] == final(self).graph.values()[old(self)
                    .outputs[k].0 as int],
    {
        let mut k: usize = 0;
        while k < inputs.len()
            invariant
                old(self).wf(),
                self.wf(),
                k <= inputs.len(),
                inputs.len() == self.inputs.len(),
                self.inputs == old(self).inputs,
                self.outputs == old(self).outputs,
                self.graph.nodes == old(self).graph.nodes,
                self.graph.gradients() == old(self).graph.gradients(),
                self.graph.values() == fed(old(self).graph.values(), inputs@.take(k as int)),
            decreases inputs.len() - k,
        {
            let id = self.inputs[k];
            self.graph.set_input(id, inputs[k]);
            proof {
                assert(self.graph.values() =~= fed(
                    old(self).graph.values(),
                    inputs@.take(k as int + 1),
                ));
            }
            k += 1;
        }
        proof {
            assert(inputs@.take(k as int) =~= inputs@);
        }
        self.graph.evaluate(&self.outputs, arith)
    }

    /// Seeds each output with its gradient, as far as both are given, and
    /// propagates the gradients back through the network.
    pub fn backward<B, P, R, N>(&mut self, out_grads: Vec<T>, arith: &Arithmetic<T, B, P, R, N>) where
        B: Fn(Operation, T, T) -> T,
        P: Fn(T) -> bool,
        R: Fn(T) -> T,
        N: Fn(u64) -> T,

        requires
            old(self).wf(),
            arith.total(),
        ensures
            final(self).wf(),
            final(self).inputs == old(self).inputs,
            final(self).outputs == old(self).outputs,
            final(self).graph.nodes == old(self).graph.nodes,
            final(self).graph.values() == old(self).graph.values(),
            forall|m: Model<T>| #[trigger]
                arith.conforms(m) ==> final(self).graph.gradients() == propagate(
                    m,
                    old(self).graph.nodes@,
                    old(self).graph.values(),
                    seeded(m, old(self).graph.gradients(), paired(old(self).outputs@, out_grads@)),
                    0,
                ),
    {
        let mut pairs: Vec<(NodeId, T)> = Vec::new();
        let mut k: usize = 0;
        while k < self.outputs.len() && k < out_grads.len()
            invariant
                self.wf(),
                k <= self.outputs.len(),
                k <= out_grads.len(),
                pairs.len() == k,
                forall|a: int| 0 <= a < k ==> #[trigger] pairs[a] == (self.outputs[a], out_grads[a]),
            decreases self.outputs.len() - k,
        {
            pairs.push((self.outputs[k], out_grads[k]));
            k += 1;
        }
        proof {
            assert(pairs@ =~= paired(self.outputs@, out_grads@));
            lemma_last_blocking(self.graph.nodes@, self.graph.nodes.len() as int);
            assert forall|a: int| 0 <= a < pairs.len() implies (#[trigger] pairs[a]).0.0
                < self.graph.nodes.len() by {
                assert(self.graph.outputs[a].0 < self.graph.nodes.len());
            }
        }
        let done = self.graph.backwards(pairs, arith);
        assert(done is Ok);
    }

    /// Resets the gradient of every node to zero.
    pub fn zero_grads<B, P, R, N>(&mut self, arith: &Arithmetic<T, B, P, R, N>) where
        B: Fn(Operation, T, T) -> T,
        P: Fn(T) -> bool,
        R: Fn(T) -> T,
        N: Fn(u64) -> T,

        requires
            old(self).wf(),
        ensures
            final(self).wf(),
            final(self).inputs == old(self).inputs,
            final(self).outputs == old(self).outputs,
            final(self).graph.nodes == old(self).graph.nodes,
            final(self).graph.values() == old(self).graph.values(),
            final(self).graph.gradients().len() == old(self).graph.gradients().len(),
            forall|i: int|
                0 <= i < final(self).graph.gradients().len() ==> #[trigger] final(self).graph
                    .gradients()[i] == arith.zero,
    {
        self.graph.zero_grads(arith);
    }

    /// Hands the network's data to `optimiser` for one step.
    pub fn update_weights<O, B, P, R, N>(&mut self, optimiser: &mut O, arith: &Arithmetic<T, B, P, R, N>) where
        O: Optimiser<T>,
        B: Fn(Operation, T, T) -> T,
        P: Fn(T) -> bool,
        R: Fn(T) -> T,
        N: Fn(u64) -> T,

        requires
            old(self).wf(),
            old(optimiser).accepts(old(self).graph.data.len() as nat),
            arith.total(),
        ensures
            final(self).wf(),
            final(self).inputs == old(self).inputs,
            final(self).outputs == old(self).outputs,
            final(self).graph.nodes == old(self).graph.nodes,
            final(self).graph.gradients() == old(self).graph.gradients(),
            final(optimiser).accepts(final(self).graph.data.len() as nat),
            forall|m: Model<T>| #[trigger]
                arith.conforms(m) ==> old(optimiser).steps(
                    m,
                    old(self).graph.data@,
                    *final(optimiser),
                    final(self).graph.data@,
                ),
    {
        self.graph.update_weights(optimiser, arith);
    }

    /// The number of slots handed to an optimiser: one per node.
    pub fn num_parameters(&self) -> (n: usize)
        ensures
            n == self.graph.data.len(),
    {
        self.graph.num_parameters()
    }

    /// The number of weights and biases that a network with the layer
    /// widths `sizes` takes, where such a network can be built: where the
    /// widths are buildable and its nodes can be counted.
    pub fn parameters_needed(sizes: &Vec<usize>) -> (out: Option<usize>)
        ensures
            out is Some <==> buildable(sizes@) && node_count(sizes@, sizes.len() as int) <= usize::MAX,
            out matches Some(n) ==> n == weight_count(sizes@, sizes.len() as int),
    {
        let layers: usize = sizes.len();
        if layers == 0 || sizes[0] == 0 {
            return None;
        }
        let mut nodes: usize = sizes[0];
        let mut weights: usize = 0;
        let mut i: usize = 1;
        while i < layers
            invariant
                layers == sizes.len(),
                1 <= i <= layers,
                forall|a: int| 0 <= a < i ==> #[trigger] sizes[a] >= 1,
                nodes == node_count(sizes@, i as int),
                weights == weight_count(sizes@, i as int),
            decreases layers - i,
        {
            let width: usize = sizes[i];
            let fan_in: usize = sizes[i - 1];
            if width == 0 {
                return None;
            }
            let extra: usize = if i != layers - 1 {
                3
            } else {
                1
            };
            proof {
                lemma_counts_grow(sizes@, i as int + 1, layers as int);
                lemma_counts_grow(sizes@, i as int, i as int + 1);
                let per = neuron_size(fan_in as int, i + 1 != layers);
                assert(per <= width * per) by (nonlinear_arith)
                    requires
                        1 <= width,
                        0 <= per,
                ;
                assert(3 * fan_in <= per);
            }
            let tripled = match 3usize.checked_mul(fan_in) {
                Some(t) => t,
                None => {
                    return None;
                },
            };
            let per = match tripled.checked_add(extra) {
                Some(p) => p,
                None => {
                    return None;
                },
            };
            let layer_nodes = match width.checked_mul(per) {
                Some(p) => p,
                None => {
                    return None;
                },
            };
            let more_nodes = match nodes.checked_add(layer_nodes) {
                Some(p) => p,
                None => {
                    return None;
                },
            };
            proof {
                assert(width * (fan_in + 1) <= width * per) by (nonlinear_arith)
                    requires
                        0 <= width,
                        0 <= fan_in + 1 <= per,
                ;
                lemma_counts_grow(sizes@, i as int + 1, i as int + 1);
            }
            let layer_weights: usize = width * (fan_in + 1);
            nodes = more_nodes;
            weights = weights + layer_weights;
            i += 1;
        }
        Some(weights)
    }
}

} // verus!
