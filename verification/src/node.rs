//! Node identifiers, the identifier allocator and the node model.

use vstd::prelude::*;

verus! {

/// The binary operations a graph node can apply to its two operands.
///
/// `Relu` reads its left operand only; its right operand is by convention a
/// zero immediate.
#[derive(Debug, Clone, Copy, PartialEq, Eq, Structural)]
pub enum Operation {
    Mul,
    Add,
    Sub,
    Div,
    Pow,
    Relu,
}

impl Operation {
    /// Whether the reverse sweep has a local derivative rule for this operation.
    pub open spec fn differentiable(self) -> bool {
        self is Add || self is Mul || self is Relu
    }

    /// Whether the reverse sweep has a local derivative rule for this operation.
    pub fn is_differentiable(self) -> (b: bool)
        ensures
            b == self.differentiable(),
    {
        match self {
            Operation::Add | Operation::Mul | Operation::Relu => true,
            _ => false,
        }
    }
}

/// The handle of one graph node. Handles are issued in increasing order, so
/// the handle of an operation is greater than the handles of its operands.
#[derive(Debug, Clone, Copy, PartialEq, Eq, Structural, Hash, PartialOrd, Ord)]
pub struct NodeId(pub usize);

/// The payload of an operation node: the operation and its two operands.
#[derive(Debug, Clone, Copy, PartialEq, Eq, Structural)]
pub struct GraphBuilderNode {
    pub operation: Operation,
    pub left_id: NodeId,
    pub right_id: NodeId,
}

/// One vertex of an expression graph.
#[derive(Debug)]
pub enum Node<T> {
    /// A binary operation over two earlier nodes.
    Operation(GraphBuilderNode),
    /// A scalar fixed when the node is made; an optimiser may later move it.
    Immediate(T),
    /// A scalar supplied from outside before each evaluation.
    Input,
}

impl<T: Copy> Clone for Node<T> {
    fn clone(&self) -> (out: Self)
        ensures
            out == *self,
    {
        *self
    }
}

impl<T: Copy> Copy for Node<T> {

}

impl<T> Node<T> {
    /// Both operands of an operation node precede the position `id`.
    pub open spec fn precedes(self, id: int) -> bool {
        self matches Node::Operation(n) ==> n.left_id.0 < id && n.right_id.0 < id
    }

    /// The node is an operation that the reverse sweep cannot differentiate.
    pub open spec fn blocks_backward(self) -> bool {
        self matches Node::Operation(n) && !n.operation.differentiable()
    }
}

/// An operation node for which the reverse sweep has no derivative rule.
#[derive(Debug, Clone, Copy, PartialEq, Eq, Structural)]
pub struct UnsupportedOperation {
    /// The handle of the node.
    pub id: NodeId,
    /// The node's operation: `Sub`, `Div` or `Pow`.
    pub operation: Operation,
}

/// The run-time state of one node.
#[derive(Debug)]
pub struct Data<T> {
    pub value: T,
    pub gradient: T,
}

impl<T: Copy> Clone for Data<T> {
    fn clone(&self) -> (out: Self)
        ensures
            out == *self,
    {
        *self
    }
}

impl<T: Copy> Copy for Data<T> {

}

impl<T> Data<T> {
    /// A slot that holds `value` and the gradient `gradient`.
    pub fn new(value: T, gradient: T) -> (d: Data<T>)
        ensures
            d.value == value,
            d.gradient == gradient,
    {
        Data { value, gradient }
    }
}

/// Issues node handles in strictly increasing order, starting at zero.
#[derive(Debug)]
pub struct IdGenerator {
    current_id: usize,
}

impl IdGenerator {
    /// The handle that the next call of `get_id` returns. Every handle issued
    /// so far is smaller.
    pub closed spec fn upcoming(&self) -> nat {
        self.current_id as nat
    }

    /// An allocator that has issued no handle yet.
    pub fn new() -> (ids: IdGenerator)
        ensures
            ids.upcoming() == 0,
    {
        IdGenerator { current_id: 0 }
    }

    /// Issues a fresh handle, greater than every handle issued before.
    pub fn get_id(&mut self) -> (id: NodeId)
        requires
            old(self).upcoming() < usize::MAX,
        ensures
            id.0 == old(self).upcoming(),
            final(self).upcoming() == old(self).upcoming() + 1,
    {
        let id: usize = self.current_id;
        self.current_id += 1;
        NodeId(id)
    }

    /// The handle that the next call of `get_id` returns.
    pub fn peek(&self) -> (next: usize)
        ensures
            next == self.upcoming(),
    {
        self.current_id
    }
}

} // verus!
