//! Optimisers: rules that turn the gradients of a data array into new values.

use vstd::prelude::*;
use crate::graph::RunnableGraph;
use crate::node::{Data, Operation};
use crate::scalar::{Arithmetic, Model};

verus! {

/// A rule that moves the value of every slot by its gradient. It leaves the
/// gradients and the number of slots as they are, and stays fit for arrays
/// of that many slots.
pub trait Optimiser<T: Copy>: Sized {
    /// Whether the optimiser can take an array of `len` slots.
    spec fn accepts(&self, len: nat) -> bool;

    /// What one step makes, under the model `m`, of the optimiser `self` and
    /// the slots `before`: the optimiser `next` and the slots `after`.
    spec fn steps(&self, m: Model<T>, before: Seq<Data<T>>, next: Self, after: Seq<Data<T>>) -> bool;

    /// Makes one step on `data`.
    fn optimise<B, P, R, N>(&mut self, data: &mut Vec<Data<T>>, arith: &Arithmetic<T, B, P, R, N>) where
        B: Fn(Operation, T, T) -> T,
        P: Fn(T) -> bool,
        R: Fn(T) -> T,
        N: Fn(u64) -> T,

        requires
            old(self).accepts(old(data).len() as nat),
            arith.total(),
        ensures
            final(data).len() == old(data).len(),
            forall|i: int|
                0 <= i < old(data).len() ==> (#[trigger] final(data)[i]).gradient == old(data)[i].gradient,
            final(self).accepts(old(data).len() as nat),
            forall|m: Model<T>| #[trigger]
                arith.conforms(m) ==> old(self).steps(m, old(data)@, *final(self), final(data)@),
    ;
}

/// Plain gradient descent: every value moves against its gradient, by the
/// gradient times the learning rate.
#[derive(Debug)]
pub struct LearningRateOptimiser<T> {
    pub learning_rate: T,
}

impl<T: Copy> LearningRateOptimiser<T> {
    /// Gradient descent with the learning rate `learning_rate`.
    pub fn new(learning_rate: T) -> (out: LearningRateOptimiser<T>)
        ensures
            out.learning_rate == learning_rate,
    {
        LearningRateOptimiser { learning_rate }
    }

    /// The value of a slot after one step.
    pub open spec fn descended(&self, m: Model<T>, slot: Data<T>) -> T {
        m.minus(slot.value, m.times(self.learning_rate, slot.gradient))
    }
}

impl<T: Copy> Optimiser<T> for LearningRateOptimiser<T> {
    open spec fn accepts(&self, len: nat) -> bool {
        true
    }

    open spec fn steps(&self, m: Model<T>, before: Seq<Data<T>>, next: Self, after: Seq<Data<T>>) -> bool {
        &&& next.learning_rate == self.learning_rate
        &&& after.len() == before.len()
        &&& forall|i: int|
            0 <= i < before.len() ==> (#[trigger] after[i]).gradient == before[i].gradient
                && after[i].value == self.descended(m, before[i])
    }

    fn optimise<B, P, R, N>(&mut self, data: &mut Vec<Data<T>>, arith: &Arithmetic<T, B, P, R, N>) where
        B: Fn(Operation, T, T) -> T,
        P: Fn(T) -> bool,
        R: Fn(T) -> T,
        N: Fn(u64) -> T,

        ensures
            final(self).learning_rate == old(self).learning_rate,
    {
        let mut i: usize = 0;
        while i < data.len()
            invariant
                arith.total(),
                i <= data.len(),
                data.len() == old(data).len(),
                self.learning_rate == old(self).learning_rate,
                forall|a: int|
                    0 <= a < data.len() ==> (#[trigger] data[a]).gradient == old(data)[a].gradient,
                forall|a: int| i <= a < data.len() ==> #[trigger] data[a] == old(data)[a],
                forall|m: Model<T>| #[trigger]
                    arith.conforms(m) ==> forall|a: int|
                        0 <= a < i ==> (#[trigger] data[a]).value == self.descended(m, old(data)[a]),
            decreases data.len() - i,
        {
            let slot = data[i];
            let step = arith.times(self.learning_rate, slot.gradient);
            let moved = arith.minus(slot.value, step);
            data[i].value = moved;
            i += 1;
        }
    }
}

/// The step size of Adam: one thousandth.
pub open spec fn alpha<T>(m: Model<T>) -> T {
    m.over((m.number)(1), (m.number)(1000))
}

/// The decay of Adam's first moment: nine tenths.
pub open spec fn beta_1<T>(m: Model<T>) -> T {
    m.over((m.number)(9), (m.number)(10))
}

/// The decay of Adam's second moment: 999 thousandths.
pub open spec fn beta_2<T>(m: Model<T>) -> T {
    m.over((m.number)(999), (m.number)(1000))
}

/// The term of Adam that keeps its divisor from zero: one hundred-millionth.
pub open spec fn epsilon<T>(m: Model<T>) -> T {
    m.over((m.number)(1), (m.number)(100_000_000))
}

/// Adam's first moment after a step with gradient `g`:
/// `beta_1 * moment + (1 - beta_1) * g`.
pub open spec fn first_moment<T>(m: Model<T>, moment: T, g: T) -> T {
    m.plus(m.times(beta_1(m), moment), m.times(m.minus((m.number)(1), beta_1(m)), g))
}

/// Adam's second moment after a step with gradient `g`:
/// `beta_2 * moment + (1 - beta_2) * g^2`.
pub open spec fn second_moment<T>(m: Model<T>, moment: T, g: T) -> T {
    m.plus(
        m.times(beta_2(m), moment),
        m.times(m.minus((m.number)(1), beta_2(m)), m.power(g, (m.number)(2))),
    )
}

/// Adam's step size at step `t`, corrected for the bias of both moments:
/// `alpha * sqrt(1 - beta_2^t) / (1 - beta_1^t)`.
pub open spec fn corrected_alpha<T>(m: Model<T>, t: T) -> T {
    m.over(
        m.times(alpha(m), (m.root)(m.minus((m.number)(1), m.power(beta_2(m), t)))),
        m.minus((m.number)(1), m.power(beta_1(m), t)),
    )
}

/// A value after step `t` of Adam, with the moments `first` and `second` of
/// that step: `value - corrected_alpha * first / (sqrt(second) + epsilon)`.
pub open spec fn adam_value<T>(m: Model<T>, value: T, first: T, second: T, t: T) -> T {
    m.minus(
        value,
        m.over(m.times(corrected_alpha(m, t), first), m.plus((m.root)(second), epsilon(m))),
    )
}

/// Step `t` of Adam on the first `upto` slots: from the moments `first` and
/// `second` and the slots `before` to `next_first`, `next_second` and `after`.
pub open spec fn adam_stepped<T>(
    m: Model<T>,
    first: Seq<T>,
    second: Seq<T>,
    before: Seq<Data<T>>,
    next_first: Seq<T>,
    next_second: Seq<T>,
    after: Seq<Data<T>>,
    t: T,
    upto: int,
) -> bool {
    forall|i: int|
        #![trigger after[i]]
        #![trigger next_first[i]]
        #![trigger next_second[i]]
        0 <= i < upto ==> {
            &&& next_first[i] == first_moment(m, first[i], before[i].gradient)
            &&& next_second[i] == second_moment(m, second[i], before[i].gradient)
            &&& after[i].gradient == before[i].gradient
            &&& after[i].value == adam_value(m, before[i].value, next_first[i], next_second[i], t)
        }
}

/// Adam: per slot a first and a second moment of the gradient, and a count of
/// the steps made.
#[derive(Debug)]
pub struct AdamOptimiser<T> {
    /// The first moment of each slot's gradient.
    pub m: Vec<T>,
    /// The second moment of each slot's gradient.
    pub v: Vec<T>,
    /// The number of steps made.
    pub t: T,
}

impl<T: Copy> AdamOptimiser<T> {
    /// Adam for arrays of `num_params` slots, with all moments zero and no
    /// step made.
    pub fn new<B, P, R, N>(num_params: usize, arith: &Arithmetic<T, B, P, R, N>) -> (out: AdamOptimiser<
        T,
    >) where B: Fn(Operation, T, T) -> T, P: Fn(T) -> bool, R: Fn(T) -> T, N: Fn(u64) -> T
        ensures
            out.t == arith.zero,
            out.m.len() == num_params,
            out.v.len() == num_params,
            forall|i: int| 0 <= i < num_params ==> #[trigger] out.m[i] == arith.zero,
            forall|i: int| 0 <= i < num_params ==> #[trigger] out.v[i] == arith.zero,
            out.accepts(num_params as nat),
    {
        let mut m: Vec<T> = Vec::new();
        let mut v: Vec<T> = Vec::new();
        let mut i: usize = 0;
        while i < num_params
            invariant
                i <= num_params,
                m.len() == i,
                v.len() == i,
                forall|a: int| 0 <= a < i ==> #[trigger] m[a] == arith.zero,
                forall|a: int| 0 <= a < i ==> #[trigger] v[a] == arith.zero,
            decreases num_params - i,
        {
            m.push(arith.zero);
            v.push(arith.zero);
            i += 1;
        }
        AdamOptimiser { m, v, t: arith.zero }
    }
}

impl<T: Copy> Optimiser<T> for AdamOptimiser<T> {
    open spec fn accepts(&self, len: nat) -> bool {
        &&& self.m.len() == len
        &&& self.v.len() == len
    }

    open spec fn steps(&self, m: Model<T>, before: Seq<Data<T>>, next: Self, after: Seq<Data<T>>) -> bool {
        &&& next.t == m.plus(self.t, (m.number)(1))
        &&& next.m.len() == before.len()
        &&& next.v.len() == before.len()
        &&& after.len() == before.len()
        &&& adam_stepped(m, self.m@, self.v@, before, next.m@, next.v@, after, next.t, before.len() as int)
    }

    fn optimise<B, P, R, N>(&mut self, data: &mut Vec<Data<T>>, arith: &Arithmetic<T, B, P, R, N>) where
        B: Fn(Operation, T, T) -> T,
        P: Fn(T) -> bool,
        R: Fn(T) -> T,
        N: Fn(u64) -> T,
     {
        let one = arith.from_number(1);
        let two = arith.from_number(2);
        let step = arith.plus(self.t, one);
        self.t = step;
        let alpha_0 = arith.over(one, arith.from_number(1000));
        let decay_1 = arith.over(arith.from_number(9), arith.from_number(10));
        let decay_2 = arith.over(arith.from_number(999), arith.from_number(1000));
        let guard = arith.over(one, arith.from_number(100_000_000));
        let keep_1 = arith.minus(one, decay_1);
        let keep_2 = arith.minus(one, decay_2);
        let bias_1 = arith.minus(one, arith.power(decay_1, step));
        let bias_2 = arith.minus(one, arith.power(decay_2, step));
        let alpha_t = arith.over(arith.times(alpha_0, arith.sqrt(bias_2)), bias_1);
        let mut i: usize = 0;
        while i < data.len()
            invariant
                arith.total(),
                i <= data.len(),
                data.len() == old(data).len(),
                self.m.len() == data.len(),
                self.v.len() == data.len(),
                old(self).m.len() == data.len(),
                old(self).v.len() == data.len(),
                self.t == step,
                forall|m: Model<T>| #[trigger]
                    arith.conforms(m) ==> step == m.plus(old(self).t, (m.number)(1)),
                forall|a: int|
                    0 <= a < data.len() ==> (#[trigger] data[a]).gradient == old(data)[a].gradient,
                forall|a: int| i <= a < data.len() ==> #[trigger] data[a] == old(data)[a],
                forall|a: int| i <= a < data.len() ==> #[trigger] self.m[a] == old(self).m[a],
                forall|a: int| i <= a < data.len() ==> #[trigger] self.v[a] == old(self).v[a],
                forall|m: Model<T>| #[trigger]
                    arith.conforms(m) ==> {
                        &&& two == (m.number)(2)
                        &&& decay_1 == beta_1(m)
                        &&& decay_2 == beta_2(m)
                        &&& guard == epsilon(m)
                        &&& keep_1 == m.minus((m.number)(1), beta_1(m))
                        &&& keep_2 == m.minus((m.number)(1), beta_2(m))
                        &&& alpha_t == corrected_alpha(m, self.t)
                    },
                forall|m: Model<T>| #[trigger]
                    arith.conforms(m) ==> adam_stepped(
                        m,
                        old(self).m@,
                        old(self).v@,
                        old(data)@,
                        self.m@,
                        self.v@,
                        data@,
                        self.t,
                        i as int,
                    ),
            decreases data.len() - i,
        {
            let slot = data[i];
            let first = arith.plus(arith.times(decay_1, self.m[i]), arith.times(keep_1, slot.gradient));
            let second = arith.plus(
                arith.times(decay_2, self.v[i]),
                arith.times(keep_2, arith.power(slot.gradient, two)),
            );
            let moved = arith.minus(
                slot.value,
                arith.over(arith.times(alpha_t, first), arith.plus(arith.sqrt(second), guard)),
            );
            let ghost prev = (self.m@, self.v@, data@);
            self.m[i] = first;
            self.v[i] = second;
            data[i].value = moved;
            proof {
                assert forall|m: Model<T>| #[trigger] arith.conforms(m) implies adam_stepped(
                    m,
                    old(self).m@,
                    old(self).v@,
                    old(data)@,
                    self.m@,
                    self.v@,
                    data@,
                    self.t,
                    i as int + 1,
                ) by {
                    assert(adam_stepped(
                        m,
                        old(self).m@,
                        old(self).v@,
                        old(data)@,
                        prev.0,
                        prev.1,
                        prev.2,
                        self.t,
                        i as int,
                    ));
                    assert forall|a: int|
                        #![trigger data@[a]]
                        #![trigger self.m@[a]]
                        #![trigger self.v@[a]]
                        0 <= a < i + 1 implies {
                        &&& self.m@[a] == first_moment(m, old(self).m@[a], old(data)@[a].gradient)
                        &&& self.v@[a] == second_moment(m, old(self).v@[a], old(data)@[a].gradient)
                        &&& data@[a].gradient == old(data)@[a].gradient
                        &&& data@[a].value == adam_value(
                            m,
                            old(data)@[a].value,
                            self.m@[a],
                            self.v@[a],
                            self.t,
                        )
                    } by {
                        if a < i {
                            assert(data@[a] == prev.2[a]);
                            assert(self.m@[a] == prev.0[a]);
                            assert(self.v@[a] == prev.1[a]);
                        } else {
                            assert(prev.2[a] == old(data)@[a]);
                            assert(slot == old(data)@[a]);
                        }
                    }
                }
            }
            i += 1;
        }
    }
}

impl<T: Copy> RunnableGraph<T> {
    /// Hands the data array to `optimiser` for one step. The nodes and the
    /// gradients stay as they are; the values are what the optimiser's step
    /// makes of them.
    pub fn update_weights<O, B, P, R, N>(&mut self, optimiser: &mut O, arith: &Arithmetic<T, B, P, R, N>) where
        O: Optimiser<T>,
        B: Fn(Operation, T, T) -> T,
        P: Fn(T) -> bool,
        R: Fn(T) -> T,
        N: Fn(u64) -> T,

        requires
            old(self).wf(),
            old(optimiser).accepts(old(self).data.len() as nat),
            arith.total(),
        ensures
            final(self).wf(),
            final(self).nodes == old(self).nodes,
            final(self).outputs == old(self).outputs,
            final(self).blocked == old(self).blocked,
            final(self).gradients() == old(self).gradients(),
            final(optimiser).accepts(final(self).data.len() as nat),
            forall|m: Model<T>| #[trigger]
                arith.conforms(m) ==> old(optimiser).steps(
                    m,
                    old(self).data@,
                    *final(optimiser),
                    final(self).data@,
                ),
    {
        optimiser.optimise(&mut self.data, arith);
        proof {
            assert(self.gradients() =~= old(self).gradients());
        }
    }
}

} // verus!
