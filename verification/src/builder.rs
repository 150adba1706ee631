//! Graph fragments: immutable sub-expressions that combine into larger ones.

use vstd::prelude::*;
use crate::node::{GraphBuilderNode, IdGenerator, Node, NodeId, Operation};
use crate::scalar::Arithmetic;

verus! {

/// The entries of `s` as a map from handle to node; a later entry replaces an
/// earlier one with the same handle.
pub open spec fn as_map<T>(s: Seq<(NodeId, Node<T>)>) -> Map<NodeId, Node<T>>
    decreases s.len(),
{
    if s.len() == 0 {
        Map::empty()
    } else {
        as_map(s.drop_last()).insert(s.last().0, s.last().1)
    }
}

/// The handles of `s` increase strictly from entry to entry.
pub open spec fn increasing<T>(s: Seq<(NodeId, Node<T>)>) -> bool {
    forall|a: int, b: int| 0 <= a < b < s.len() ==> s[a].0.0 < s[b].0.0
}

/// Every operation node of `m` has operands with smaller handles than its own.
pub open spec fn topological<T>(m: Map<NodeId, Node<T>>) -> bool {
    forall|id: NodeId| #[trigger] m.contains_key(id) ==> m[id].precedes(id.0 as int)
}

/// No handle of `m` is greater than `bound`.
pub open spec fn bounded<T>(m: Map<NodeId, Node<T>>, bound: NodeId) -> bool {
    forall|id: NodeId| #[trigger] m.contains_key(id) ==> id.0 <= bound.0
}

pub(crate) proof fn lemma_as_map_push<T>(s: Seq<(NodeId, Node<T>)>, x: (NodeId, Node<T>))
    ensures
        as_map(s.push(x)) == as_map(s).insert(x.0, x.1),
{
    assert(s.push(x).drop_last() =~= s);
}

pub(crate) proof fn lemma_as_map_take<T>(s: Seq<(NodeId, Node<T>)>, i: int)
    requires
        0 <= i < s.len(),
    ensures
        as_map(s.take(i + 1)) == as_map(s.take(i)).insert(s[i].0, s[i].1),
{
    assert(s.take(i + 1).drop_last() =~= s.take(i));
}

/// Every key of the map is the handle of some entry.
pub proof fn lemma_as_map_key<T>(s: Seq<(NodeId, Node<T>)>, id: NodeId)
    requires
        as_map(s).contains_key(id),
    ensures
        exists|k: int| 0 <= k < s.len() && #[trigger] s[k].0 == id,
    decreases s.len(),
{
    if s.len() > 0 {
        if s.last().0 == id {
            assert(s[s.len() - 1].0 == id);
        } else {
            lemma_as_map_key(s.drop_last(), id);
            let k = choose|k: int| 0 <= k < s.drop_last().len() && #[trigger] s.drop_last()[k].0 == id;
            assert(s[k].0 == id);
        }
    }
}

/// With increasing handles, every entry is found in the map under its handle.
pub proof fn lemma_as_map_entry<T>(s: Seq<(NodeId, Node<T>)>, k: int)
    requires
        increasing(s),
        0 <= k < s.len(),
    ensures
        as_map(s).contains_key(s[k].0),
        as_map(s)[s[k].0] == s[k].1,
    decreases s.len(),
{
    if k < s.len() - 1 {
        lemma_as_map_entry(s.drop_last(), k);
        assert(s[k].0.0 < s.last().0.0);
    }
}

/// The union of two fragments' entries, ordered by handle. Where both hold a
/// handle, the entry of `right` is kept.
pub(crate) fn merge<T: Copy>(left: &Vec<(NodeId, Node<T>)>, right: &Vec<(NodeId, Node<T>)>) -> (out: Vec<
    (NodeId, Node<T>),
>)
    requires
        increasing(left@),
        increasing(right@),
    ensures
        increasing(out@),
        as_map(out@) == as_map(left@).union_prefer_right(as_map(right@)),
{
    let mut out: Vec<(NodeId, Node<T>)> = Vec::new();
    let mut i: usize = 0;
    let mut j: usize = 0;
    while i < left.len() || j < right.len()
        invariant
            increasing(left@),
            increasing(right@),
            increasing(out@),
            i <= left.len(),
            j <= right.len(),
            as_map(out@) == as_map(left@.take(i as int)).union_prefer_right(
                as_map(right@.take(j as int)),
            ),
            forall|k: int|
                0 <= k < out.len() ==> (i < left.len() ==> (#[trigger] out[k]).0.0 < left[i as int].0.0)
                    && (j < right.len() ==> out[k].0.0 < right[j as int].0.0),
            forall|b: int|
                0 <= b < j && i < left.len() ==> (#[trigger] right[b]).0.0 < left[i as int].0.0,
        decreases (left.len() - i) + (right.len() - j),
    {
        let ghost before = out@;
        let take_left: bool = j >= right.len() || (i < left.len() && left[i].0.0 < right[j].0.0);
        let take_both: bool = i < left.len() && j < right.len() && left[i].0.0 == right[j].0.0;
        if take_left {
            let entry = left[i];
            proof {
                lemma_as_map_push(before, entry);
                lemma_as_map_take(left@, i as int);
                if as_map(right@.take(j as int)).contains_key(entry.0) {
                    lemma_as_map_key(right@.take(j as int), entry.0);
                    let b = choose|b: int|
                        0 <= b < right@.take(j as int).len() && #[trigger] right@.take(j as int)[b].0
                            == entry.0;
                    assert(right[b].0.0 < left[i as int].0.0);
                }
                assert(as_map(before).insert(entry.0, entry.1) =~= as_map(
                    left@.take(i as int + 1),
                ).union_prefer_right(as_map(right@.take(j as int))));
            }
            out.push(entry);
            i += 1;
        } else {
            let entry = right[j];
            proof {
                lemma_as_map_push(before, entry);
                lemma_as_map_take(right@, j as int);
                if take_both {
                    lemma_as_map_take(left@, i as int);
                    assert(as_map(before).insert(entry.0, entry.1) =~= as_map(
                        left@.take(i as int + 1),
                    ).union_prefer_right(as_map(right@.take(j as int + 1))));
                } else {
                    assert(as_map(before).insert(entry.0, entry.1) =~= as_map(
                        left@.take(i as int),
                    ).union_prefer_right(as_map(right@.take(j as int + 1))));
                }
            }
            out.push(entry);
            j += 1;
            if take_both {
                i += 1;
            }
        }
    }
    proof {
        assert(left@.take(i as int) =~= left@);
        assert(right@.take(j as int) =~= right@);
    }
    out
}

/// An immutable sub-expression: its root and every node the root is built
/// from.
#[derive(Debug)]
pub struct GraphBuilder<T> {
    /// The handle of the node that the fragment computes.
    pub root: NodeId,
    /// The fragment's nodes with their handles, in increasing order of handle.
    pub nodes: Vec<(NodeId, Node<T>)>,
}

/// A fragment that is a single input node, with the handle under which the
/// input's value is later supplied.
#[derive(Debug)]
pub struct InputNode<T> {
    pub id: NodeId,
    pub builder: GraphBuilder<T>,
}

impl<T> From<InputNode<T>> for GraphBuilder<T> {
    /// The fragment of the input.
    fn from(input: InputNode<T>) -> (out: Self) {
        input.builder
    }
}

impl<T> vstd::std_specs::convert::FromSpecImpl<InputNode<T>> for GraphBuilder<T> {
    open spec fn obeys_from_spec() -> bool {
        true
    }

    open spec fn from_spec(input: InputNode<T>) -> Self {
        input.builder
    }
}

impl<T: Copy> Clone for GraphBuilder<T> {
    /// A copy with the same root and the same nodes.
    fn clone(&self) -> (out: Self)
        ensures
            out.root == self.root,
            out.nodes@ == self.nodes@,
    {
        let mut nodes: Vec<(NodeId, Node<T>)> = Vec::new();
        let mut k: usize = 0;
        while k < self.nodes.len()
            invariant
                k <= self.nodes.len(),
                nodes@ == self.nodes@.take(k as int),
            decreases self.nodes.len() - k,
        {
            nodes.push(self.nodes[k]);
            proof {
                assert(self.nodes@.take(k as int).push(self.nodes@[k as int]) =~= self.nodes@.take(
                    k as int + 1,
                ));
            }
            k += 1;
        }
        proof {
            assert(self.nodes@.take(k as int) =~= self.nodes@);
        }
        GraphBuilder { root: self.root, nodes }
    }
}

impl<T> View for GraphBuilder<T> {
    type V = Map<NodeId, Node<T>>;

    /// The fragment's nodes, by handle.
    open spec fn view(&self) -> Map<NodeId, Node<T>> {
        as_map(self.nodes@)
    }
}

impl<T: Copy> GraphBuilder<T> {
    /// The entries are stored in order of their handles.
    pub open spec fn ordered(&self) -> bool {
        increasing(self.nodes@)
    }

    /// The fragment's invariant: no handle exceeds the root's, and every
    /// operation's operands have smaller handles than the operation.
    pub open spec fn wf(&self) -> bool {
        &&& self.ordered()
        &&& bounded(self@, self.root)
        &&& topological(self@)
    }

    /// The node that combines the roots of `left` and `right` under `op`.
    pub open spec fn joint(op: Operation, left: NodeId, right: NodeId) -> Node<T> {
        Node::Operation(GraphBuilderNode { operation: op, left_id: left, right_id: right })
    }

    /// A fragment without nodes, from which inputs and immediates are made.
    pub fn new() -> (out: GraphBuilder<T>)
        ensures
            out.wf(),
            out.root == NodeId(0),
            out@ == Map::<NodeId, Node<T>>::empty(),
    {
        GraphBuilder { root: NodeId(0), nodes: Vec::new() }
    }

    fn single(ids: &mut IdGenerator, node: Node<T>) -> (out: GraphBuilder<T>)
        requires
            old(ids).upcoming() < usize::MAX,
            !(node is Operation),
        ensures
            out.wf(),
            out.root.0 == old(ids).upcoming(),
            final(ids).upcoming() == old(ids).upcoming() + 1,
            out@ == Map::<NodeId, Node<T>>::empty().insert(out.root, node),
    {
        let id = ids.get_id();
        let mut nodes: Vec<(NodeId, Node<T>)> = Vec::new();
        nodes.push((id, node));
        proof {
            lemma_as_map_push(Seq::<(NodeId, Node<T>)>::empty(), (id, node));
            assert(nodes@ =~= Seq::<(NodeId, Node<T>)>::empty().push((id, node)));
        }
        GraphBuilder { root: id, nodes }
    }

    /// A fragment whose root is a fresh immediate that holds `val`.
    pub fn new_of_immediate(ids: &mut IdGenerator, val: T) -> (out: GraphBuilder<T>)
        requires
            old(ids).upcoming() < usize::MAX,
        ensures
            out.wf(),
            out.root.0 == old(ids).upcoming(),
            final(ids).upcoming() == old(ids).upcoming() + 1,
            out@ == Map::<NodeId, Node<T>>::empty().insert(out.root, Node::Immediate(val)),
    {
        Self::single(ids, Node::Immediate(val))
    }

    /// A fragment whose root is a fresh immediate that holds `val`.
    pub fn create_immediate(&self, ids: &mut IdGenerator, val: T) -> (out: GraphBuilder<T>)
        requires
            old(ids).upcoming() < usize::MAX,
        ensures
            out.wf(),
            out.root.0 == old(ids).upcoming(),
            final(ids).upcoming() == old(ids).upcoming() + 1,
            out@ == Map::<NodeId, Node<T>>::empty().insert(out.root, Node::Immediate(val)),
    {
        Self::single(ids, Node::Immediate(val))
    }

    /// A fragment whose root is a fresh input.
    pub fn create_input(&self, ids: &mut IdGenerator) -> (out: InputNode<T>)
        requires
            old(ids).upcoming() < usize::MAX,
        ensures
            out.builder.wf(),
            out.id == out.builder.root,
            out.id.0 == old(ids).upcoming(),
            final(ids).upcoming() == old(ids).upcoming() + 1,
            out.builder@ == Map::<NodeId, Node<T>>::empty().insert(out.id, Node::Input),
    {
        let builder = Self::single(ids, Node::Input);
        InputNode { id: builder.root, builder }
    }

    /// A fragment whose root applies `op` to the roots of `left` and `right`.
    /// It holds the nodes of both and the new root; where both hold a handle,
    /// the node of `right` is kept.
    pub fn combine(
        op: Operation,
        left: &GraphBuilder<T>,
        right: &GraphBuilder<T>,
        ids: &mut IdGenerator,
    ) -> (out: GraphBuilder<T>)
        requires
            left.wf(),
            right.wf(),
            left.root.0 < old(ids).upcoming(),
            right.root.0 < old(ids).upcoming(),
            old(ids).upcoming() < usize::MAX,
        ensures
            out.wf(),
            out.root.0 == old(ids).upcoming(),
            final(ids).upcoming() == old(ids).upcoming() + 1,
            out@ == left@.union_prefer_right(right@).insert(
                out.root,
                Self::joint(op, left.root, right.root),
            ),
    {
        let mut nodes = merge(&left.nodes, &right.nodes);
        let id = ids.get_id();
        let node = Node::Operation(
            GraphBuilderNode { operation: op, left_id: left.root, right_id: right.root },
        );
        proof {
            lemma_as_map_push(nodes@, (id, node));
            assert forall|a: int, b: int| 0 <= a < b < nodes@.push((id, node)).len() implies nodes@.push(
                (id, node),
            )[a].0.0 < nodes@.push((id, node))[b].0.0 by {
                if b == nodes@.len() {
                    lemma_as_map_entry(nodes@, a);
                }
            }
        }
        nodes.push((id, node));
        GraphBuilder { root: id, nodes }
    }

    /// A fragment whose root applies `op` to a fresh immediate that holds
    /// `left` and to the root of `right`, in this order.
    pub fn with_immediate(
        op: Operation,
        left: T,
        right: &GraphBuilder<T>,
        ids: &mut IdGenerator,
    ) -> (out: GraphBuilder<T>)
        requires
            right.wf(),
            right.root.0 < old(ids).upcoming(),
            old(ids).upcoming() + 1 < usize::MAX,
        ensures
            out.wf(),
            out.root.0 == old(ids).upcoming() + 1,
            final(ids).upcoming() == old(ids).upcoming() + 2,
            out@ == right@.insert(
                NodeId(old(ids).upcoming() as usize),
                Node::Immediate(left),
            ).insert(
                out.root,
                Self::joint(op, NodeId(old(ids).upcoming() as usize), right.root),
            ),
    {
        let scalar = Self::new_of_immediate(ids, left);
        let out = Self::combine(op, &scalar, right, ids);
        proof {
            assert(!right@.contains_key(scalar.root));
            assert(scalar@.union_prefer_right(right@) =~= right@.insert(
                scalar.root,
                Node::Immediate(left),
            ));
        }
        out
    }

    /// A fragment whose root applies `op` to the root of `left` and to a
    /// fresh immediate that holds `right`, in this order.
    pub fn with_scalar(
        op: Operation,
        left: &GraphBuilder<T>,
        right: T,
        ids: &mut IdGenerator,
    ) -> (out: GraphBuilder<T>)
        requires
            left.wf(),
            left.root.0 < old(ids).upcoming(),
            old(ids).upcoming() + 1 < usize::MAX,
        ensures
            out.wf(),
            out.root.0 == old(ids).upcoming() + 1,
            final(ids).upcoming() == old(ids).upcoming() + 2,
            out@ == left@.insert(
                NodeId(old(ids).upcoming() as usize),
                Node::Immediate(right),
            ).insert(
                out.root,
                Self::joint(op, left.root, NodeId(old(ids).upcoming() as usize)),
            ),
    {
        let scalar = Self::new_of_immediate(ids, right);
        let out = Self::combine(op, left, &scalar, ids);
        proof {
            assert(left@.union_prefer_right(scalar@) =~= left@.insert(
                scalar.root,
                Node::Immediate(right),
            ));
        }
        out
    }

    /// The fragment rectified: its root is `Relu` of this fragment's root and
    /// of a fresh zero immediate.
    pub fn relu<B, P, R, N>(
        &self,
        ids: &mut IdGenerator,
        arith: &Arithmetic<T, B, P, R, N>,
    ) -> (out: GraphBuilder<T>) where
        B: Fn(Operation, T, T) -> T,
        P: Fn(T) -> bool,
        R: Fn(T) -> T,
        N: Fn(u64) -> T,

        requires
            self.wf(),
            self.root.0 < old(ids).upcoming(),
            old(ids).upcoming() + 1 < usize::MAX,
        ensures
            out.wf(),
            out.root.0 == old(ids).upcoming() + 1,
            final(ids).upcoming() == old(ids).upcoming() + 2,
            out@ == self@.insert(
                NodeId(old(ids).upcoming() as usize),
                Node::Immediate(arith.zero),
            ).insert(
                out.root,
                Self::joint(Operation::Relu, self.root, NodeId(old(ids).upcoming() as usize)),
            ),
    {
        Self::with_scalar(Operation::Relu, self, arith.zero, ids)
    }

    /// The sum of this fragment and `rhs`.
    pub fn add(&self, rhs: &GraphBuilder<T>, ids: &mut IdGenerator) -> (out: GraphBuilder<T>)
        requires
            self.wf(),
            rhs.wf(),
            self.root.0 < old(ids).upcoming(),
            rhs.root.0 < old(ids).upcoming(),
            old(ids).upcoming() < usize::MAX,
        ensures
            out.wf(),
            out.root.0 == old(ids).upcoming(),
            final(ids).upcoming() == old(ids).upcoming() + 1,
            out@ == self@.union_prefer_right(rhs@).insert(
                out.root,
                Self::joint(Operation::Add, self.root, rhs.root),
            ),
    {
        Self::combine(Operation::Add, self, rhs, ids)
    }

    /// This fragment less `rhs`.
    pub fn sub(&self, rhs: &GraphBuilder<T>, ids: &mut IdGenerator) -> (out: GraphBuilder<T>)
        requires
            self.wf(),
            rhs.wf(),
            self.root.0 < old(ids).upcoming(),
            rhs.root.0 < old(ids).upcoming(),
            old(ids).upcoming() < usize::MAX,
        ensures
            out.wf(),
            out.root.0 == old(ids).upcoming(),
            final(ids).upcoming() == old(ids).upcoming() + 1,
            out@ == self@.union_prefer_right(rhs@).insert(
                out.root,
                Self::joint(Operation::Sub, self.root, rhs.root),
            ),
    {
        Self::combine(Operation::Sub, self, rhs, ids)
    }

    /// The product of this fragment and `rhs`.
    pub fn mul(&self, rhs: &GraphBuilder<T>, ids: &mut IdGenerator) -> (out: GraphBuilder<T>)
        requires
            self.wf(),
            rhs.wf(),
            self.root.0 < old(ids).upcoming(),
            rhs.root.0 < old(ids).upcoming(),
            old(ids).upcoming() < usize::MAX,
        ensures
            out.wf(),
            out.root.0 == old(ids).upcoming(),
            final(ids).upcoming() == old(ids).upcoming() + 1,
            out@ == self@.union_prefer_right(rhs@).insert(
                out.root,
                Self::joint(Operation::Mul, self.root, rhs.root),
            ),
    {
        Self::combine(Operation::Mul, self, rhs, ids)
    }

    /// This fragment divided by `rhs`.
    pub fn div(&self, rhs: &GraphBuilder<T>, ids: &mut IdGenerator) -> (out: GraphBuilder<T>)
        requires
            self.wf(),
            rhs.wf(),
            self.root.0 < old(ids).upcoming(),
            rhs.root.0 < old(ids).upcoming(),
            old(ids).upcoming() < usize::MAX,
        ensures
            out.wf(),
            out.root.0 == old(ids).upcoming(),
            final(ids).upcoming() == old(ids).upcoming() + 1,
            out@ == self@.union_prefer_right(rhs@).insert(
                out.root,
                Self::joint(Operation::Div, self.root, rhs.root),
            ),
    {
        Self::combine(Operation::Div, self, rhs, ids)
    }

    /// This fragment raised to the power `rhs`.
    pub fn pow(&self, rhs: &GraphBuilder<T>, ids: &mut IdGenerator) -> (out: GraphBuilder<T>)
        requires
            self.wf(),
            rhs.wf(),
            self.root.0 < old(ids).upcoming(),
            rhs.root.0 < old(ids).upcoming(),
            old(ids).upcoming() < usize::MAX,
        ensures
            out.wf(),
            out.root.0 == old(ids).upcoming(),
            final(ids).upcoming() == old(ids).upcoming() + 1,
            out@ == self@.union_prefer_right(rhs@).insert(
                out.root,
                Self::joint(Operation::Pow, self.root, rhs.root),
            ),
    {
        Self::combine(Operation::Pow, self, rhs, ids)
    }

    /// The node stored under `id`, if the fragment holds one.
    pub fn get(&self, id: NodeId) -> (found: Option<Node<T>>)
        requires
            self.ordered(),
        ensures
            found == (if self@.contains_key(id) {
                Some(self@[id])
            } else {
                None
            }),
    {
        let mut k: usize = 0;
        while k < self.nodes.len()
            invariant
                self.ordered(),
                k <= self.nodes.len(),
                forall|a: int| 0 <= a < k ==> (#[trigger] self.nodes[a]).0 != id,
            decreases self.nodes.len() - k,
        {
            if self.nodes[k].0.0 == id.0 {
                proof {
                    lemma_as_map_entry(self.nodes@, k as int);
                }
                return Some(self.nodes[k].1);
            }
            k += 1;
        }
        proof {
            if self@.contains_key(id) {
                lemma_as_map_key(self.nodes@, id);
            }
        }
        None
    }
}

} // verus!
