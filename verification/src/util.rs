//! Helpers for judging predictions: the place of the greatest score and the
//! mean of a series.

use vstd::prelude::*;
use crate::node::Operation;
use crate::scalar::{Arithmetic, Model};

verus! {

/// `a` is greater than `b`: `a - b` is positive.
pub open spec fn exceeds<T>(m: Model<T>, a: T, b: T) -> bool {
    (m.positive)(m.minus(a, b))
}

/// The place of the greatest among the first `upto` scores; of several
/// greatest scores, the place of the last. A score keeps its place only
/// against a later score that it exceeds.
pub open spec fn greatest<T>(m: Model<T>, v: Seq<T>, upto: int) -> int
    decreases upto,
{
    if upto <= 1 {
        0
    } else {
        let best = greatest(m, v, upto - 1);
        if exceeds(m, v[best], v[upto - 1]) {
            best
        } else {
            upto - 1
        }
    }
}

/// The mean of the first `upto` entries, carried along from entry to entry:
/// with entry `i`, counted from one, the mean `s` so far becomes
/// `(v[i - 1] + s * (i - 1)) / i`.
pub open spec fn running_mean<T>(m: Model<T>, v: Seq<T>, upto: int) -> T
    decreases upto,
{
    if upto <= 0 {
        m.zero
    } else {
        m.over(
            m.plus(
                v[upto - 1],
                m.times(running_mean(m, v, upto - 1), (m.number)((upto - 1) as u64)),
            ),
            (m.number)(upto as u64),
        )
    }
}

/// The place that `greatest` names is one of the first `upto`.
pub proof fn lemma_greatest_in_range<T>(m: Model<T>, v: Seq<T>, upto: int)
    requires
        1 <= upto,
    ensures
        0 <= greatest(m, v, upto) < upto,
    decreases upto,
{
    if upto > 1 {
        lemma_greatest_in_range(m, v, upto - 1);
    }
}

/// Exceeding ranks the scores: of two scores at most one exceeds the other,
/// and a score that does not exceed a second, which does not exceed a third,
/// does not exceed the third.
pub open spec fn ranks<T>(m: Model<T>, v: Seq<T>) -> bool {
    &&& forall|i: int, j: int|
        0 <= i < v.len() && 0 <= j < v.len() && #[trigger] exceeds(m, v[i], v[j]) ==> !exceeds(
            m,
            v[j],
            v[i],
        )
    &&& forall|i: int, j: int, k: int|
        #![trigger exceeds(m, v[i], v[j]), exceeds(m, v[j], v[k])]
        0 <= i < v.len() && 0 <= j < v.len() && 0 <= k < v.len() && !exceeds(m, v[i], v[j])
            && !exceeds(m, v[j], v[k]) ==> !exceeds(m, v[i], v[k])
}

/// Where exceeding ranks the scores, no score exceeds the one that
/// `greatest` names, and that one exceeds every score after it.
pub proof fn lemma_greatest_is_greatest<T>(m: Model<T>, v: Seq<T>, upto: int, other: int)
    requires
        ranks(m, v),
        1 <= upto <= v.len(),
        0 <= other < upto,
    ensures
        !exceeds(m, v[other], v[greatest(m, v, upto)]),
        other > greatest(m, v, upto) ==> exceeds(m, v[greatest(m, v, upto)], v[other]),
    decreases upto,
{
    lemma_greatest_in_range(m, v, upto);
    if upto > 1 {
        lemma_greatest_in_range(m, v, upto - 1);
        let best = greatest(m, v, upto - 1);
        if other < upto - 1 {
            lemma_greatest_is_greatest(m, v, upto - 1, other);
            if !exceeds(m, v[best], v[upto - 1]) {
                assert(!exceeds(m, v[other], v[best]));
                assert(!exceeds(m, v[other], v[upto - 1]));
            }
        } else {
            if exceeds(m, v[upto - 1], v[upto - 1]) {
                assert(!exceeds(m, v[upto - 1], v[upto - 1]));
            }
        }
    } else {
        if exceeds(m, v[0], v[0]) {
            assert(!exceeds(m, v[0], v[0]));
        }
    }
}

/// Helpers for judging predictions.
pub struct Util {}

impl Util {
    /// The place of the greatest score; of several greatest scores, the
    /// place of the last.
    pub fn argmax<T: Copy, B, P, R, N>(v: &[T], arith: &Arithmetic<T, B, P, R, N>) -> (at: usize) where
        B: Fn(Operation, T, T) -> T,
        P: Fn(T) -> bool,
        R: Fn(T) -> T,
        N: Fn(u64) -> T,

        requires
            v.len() >= 1,
            arith.total(),
        ensures
            at < v.len(),
            forall|m: Model<T>| #[trigger] arith.conforms(m) ==> at == greatest(m, v@, v.len() as int),
    {
        let mut best: usize = 0;
        let mut i: usize = 1;
        while i < v.len()
            invariant
                arith.total(),
                1 <= i <= v.len(),
                best < i,
                forall|m: Model<T>| #[trigger] arith.conforms(m) ==> best == greatest(m, v@, i as int),
            decreases v.len() - i,
        {
            let keeps = arith.is_positive(arith.minus(v[best], v[i]));
            if !keeps {
                best = i;
            }
            i += 1;
        }
        best
    }

    /// The running mean of the entries; zero where there are none.
    pub fn mean<T: Copy, B, P, R, N>(v: &[T], arith: &Arithmetic<T, B, P, R, N>) -> (out: T) where
        B: Fn(Operation, T, T) -> T,
        P: Fn(T) -> bool,
        R: Fn(T) -> T,
        N: Fn(u64) -> T,

        requires
            arith.total(),
        ensures
            forall|m: Model<T>| #[trigger] arith.conforms(m) ==> out == running_mean(m, v@, v.len() as int),
    {
        let mut s: T = arith.zero;
        let mut i: usize = 0;
        while i < v.len()
            invariant
                arith.total(),
                i <= v.len(),
                forall|m: Model<T>| #[trigger] arith.conforms(m) ==> s == running_mean(m, v@, i as int),
            decreases v.len() - i,
        {
            let seen = arith.from_number(i as u64);
            let count = arith.from_number((i + 1) as u64);
            s = arith.over(arith.plus(v[i], arith.times(s, seen)), count);
            i += 1;
        }
        s
    }
}

} // verus!
