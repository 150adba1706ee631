//! The scalar arithmetic that the engine is generic in.

use vstd::prelude::*;
use crate::node::Operation;

verus! {

/// A mathematical model of scalar arithmetic: what each primitive returns,
/// as a function of its arguments.
#[verifier::reject_recursive_types(T)]
pub struct Model<T> {
    /// The additive identity.
    pub zero: T,
    /// The result of `Add`, `Sub`, `Mul`, `Div` and `Pow` on two scalars.
    pub binary: spec_fn(Operation, T, T) -> T,
    /// Whether a scalar is greater than zero.
    pub positive: spec_fn(T) -> bool,
    /// The square root of a scalar.
    pub root: spec_fn(T) -> T,
    /// The scalar that stands for a natural number.
    pub number: spec_fn(u64) -> T,
}

impl<T> Model<T> {
    /// `l + r`.
    pub open spec fn plus(self, l: T, r: T) -> T {
        (self.binary)(Operation::Add, l, r)
    }

    /// `l - r`.
    pub open spec fn minus(self, l: T, r: T) -> T {
        (self.binary)(Operation::Sub, l, r)
    }

    /// `l * r`.
    pub open spec fn times(self, l: T, r: T) -> T {
        (self.binary)(Operation::Mul, l, r)
    }

    /// `l / r`.
    pub open spec fn over(self, l: T, r: T) -> T {
        (self.binary)(Operation::Div, l, r)
    }

    /// `l` raised to the power `r`.
    pub open spec fn power(self, l: T, r: T) -> T {
        (self.binary)(Operation::Pow, l, r)
    }

    /// The greater of `l` and zero.
    pub open spec fn rectified(self, l: T) -> T {
        if (self.positive)(l) {
            l
        } else {
            self.zero
        }
    }

    /// The value of an operation node whose operands hold `l` and `r`.
    pub open spec fn apply(self, op: Operation, l: T, r: T) -> T {
        if op is Relu {
            self.rectified(l)
        } else {
            (self.binary)(op, l, r)
        }
    }
}

/// Executable scalar arithmetic: a zero and four primitives supplied by the
/// caller.
pub struct Arithmetic<T, B, P, R, N> {
    /// The additive identity.
    pub zero: T,
    /// Computes `Add`, `Sub`, `Mul`, `Div` and `Pow`; never called with `Relu`.
    pub binary: B,
    /// Tells whether a scalar is greater than zero.
    pub positive: P,
    /// Computes a square root.
    pub root: R,
    /// Converts a natural number to a scalar.
    pub number: N,
}

impl<T, B, P, R, N> Arithmetic<T, B, P, R, N> where
    T: Copy,
    B: Fn(Operation, T, T) -> T,
    P: Fn(T) -> bool,
    R: Fn(T) -> T,
    N: Fn(u64) -> T,
 {
    /// Every primitive may be called on every argument.
    pub open spec fn total(&self) -> bool {
        &&& forall|op: Operation, l: T, r: T|
            !(op is Relu) ==> #[trigger] call_requires(self.binary, (op, l, r))
        &&& forall|v: T| #[trigger] call_requires(self.positive, (v,))
        &&& forall|v: T| #[trigger] call_requires(self.root, (v,))
        &&& forall|n: u64| #[trigger] call_requires(self.number, (n,))
    }

    /// Whatever a primitive returns is what the model `m` says it returns.
    pub open spec fn conforms(&self, m: Model<T>) -> bool {
        &&& self.zero == m.zero
        &&& forall|op: Operation, l: T, r: T, out: T| #[trigger]
            call_ensures(self.binary, (op, l, r), out) ==> out == (m.binary)(op, l, r)
        &&& forall|v: T, out: bool| #[trigger]
            call_ensures(self.positive, (v,), out) ==> out == (m.positive)(v)
        &&& forall|v: T, out: T| #[trigger]
            call_ensures(self.root, (v,), out) ==> out == (m.root)(v)
        &&& forall|n: u64, out: T| #[trigger]
            call_ensures(self.number, (n,), out) ==> out == (m.number)(n)
    }

    /// Bundles a zero and the four primitives.
    pub fn new(zero: T, binary: B, positive: P, root: R, number: N) -> (arith: Self)
        ensures
            arith.zero == zero,
            arith.binary == binary,
            arith.positive == positive,
            arith.root == root,
            arith.number == number,
    {
        Arithmetic { zero, binary, positive, root, number }
    }

    /// `l + r`.
    pub fn plus(&self, l: T, r: T) -> (out: T)
        requires
            self.total(),
        ensures
            forall|m: Model<T>| #[trigger] self.conforms(m) ==> out == m.plus(l, r),
    {
        (self.binary)(Operation::Add, l, r)
    }

    /// `l - r`.
    pub fn minus(&self, l: T, r: T) -> (out: T)
        requires
            self.total(),
        ensures
            forall|m: Model<T>| #[trigger] self.conforms(m) ==> out == m.minus(l, r),
    {
        (self.binary)(Operation::Sub, l, r)
    }

    /// `l * r`.
    pub fn times(&self, l: T, r: T) -> (out: T)
        requires
            self.total(),
        ensures
            forall|m: Model<T>| #[trigger] self.conforms(m) ==> out == m.times(l, r),
    {
        (self.binary)(Operation::Mul, l, r)
    }

    /// `l / r`.
    pub fn over(&self, l: T, r: T) -> (out: T)
        requires
            self.total(),
        ensures
            forall|m: Model<T>| #[trigger] self.conforms(m) ==> out == m.over(l, r),
    {
        (self.binary)(Operation::Div, l, r)
    }

    /// `l` raised to the power `r`.
    pub fn power(&self, l: T, r: T) -> (out: T)
        requires
            self.total(),
        ensures
            forall|m: Model<T>| #[trigger] self.conforms(m) ==> out == m.power(l, r),
    {
        (self.binary)(Operation::Pow, l, r)
    }

    /// Whether `v` is greater than zero.
    pub fn is_positive(&self, v: T) -> (out: bool)
        requires
            self.total(),
        ensures
            forall|m: Model<T>| #[trigger] self.conforms(m) ==> out == (m.positive)(v),
    {
        (self.positive)(v)
    }

    /// The square root of `v`.
    pub fn sqrt(&self, v: T) -> (out: T)
        requires
            self.total(),
        ensures
            forall|m: Model<T>| #[trigger] self.conforms(m) ==> out == (m.root)(v),
    {
        (self.root)(v)
    }

    /// The scalar that stands for `n`.
    pub fn from_number(&self, n: u64) -> (out: T)
        requires
            self.total(),
        ensures
            forall|m: Model<T>| #[trigger] self.conforms(m) ==> out == (m.number)(n),
    {
        (self.number)(n)
    }

    /// The greater of `l` and zero.
    pub fn rectified(&self, l: T) -> (out: T)
        requires
            self.total(),
        ensures
            forall|m: Model<T>| #[trigger] self.conforms(m) ==> out == m.rectified(l),
    {
        if (self.positive)(l) {
            l
        } else {
            self.zero
        }
    }

    /// The value of an operation node whose operands hold `l` and `r`.
    pub fn apply(&self, op: Operation, l: T, r: T) -> (out: T)
        requires
            self.total(),
        ensures
            forall|m: Model<T>| #[trigger] self.conforms(m) ==> out == m.apply(op, l, r),
    {
        match op {
            Operation::Relu => self.rectified(l),
            _ => (self.binary)(op, l, r),
        }
    }
}

} // verus!
