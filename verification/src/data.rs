//! A labelled data set: feature vectors and the label of each.

use std::collections::HashSet;
use vstd::prelude::*;

verus! {

/// A data set of images with their labels.
#[derive(Debug)]
pub struct Mnist<T> {
    /// The feature vector of each example.
    pub images: Vec<Vec<T>>,
    /// The label of each example.
    pub labels: Vec<u32>,
    /// The number of features of the first example.
    pub x_dim: usize,
    /// The number of distinct labels.
    pub y_dim: usize,
}

impl<T> Mnist<T> {
    /// The data set of the given examples, with the number of features of
    /// the first image and the number of distinct labels.
    pub fn new(images: Vec<Vec<T>>, labels: Vec<u32>) -> (out: Mnist<T>)
        requires
            images.len() >= 1,
        ensures
            out.images == images,
            out.labels == labels,
            out.x_dim == images[0].len(),
            out.y_dim == labels@.to_set().len(),
    {
        broadcast use vstd::std_specs::hash::group_hash_axioms;

        let x_dim: usize = images[0].len();
        let mut seen: HashSet<u32> = HashSet::new();
        let mut k: usize = 0;
        while k < labels.len()
            invariant
                k <= labels.len(),
                seen@ == labels@.take(k as int).to_set(),
            decreases labels.len() - k,
        {
            let label: u32 = labels[k];
            proof {
                let shorter = labels@.take(k as int);
                let longer = labels@.take(k as int + 1);
                assert forall|x: u32| longer.contains(x) <==> shorter.contains(x) || x == label by {
                    if longer.contains(x) {
                        let at = choose|at: int| 0 <= at < longer.len() && longer[at] == x;
                        if at < k {
                            assert(shorter[at] == x);
                        }
                    }
                    if shorter.contains(x) {
                        let at = choose|at: int| 0 <= at < shorter.len() && shorter[at] == x;
                        assert(longer[at] == x);
                    }
                    if x == label {
                        assert(longer[k as int] == x);
                    }
                }
                assert(longer.to_set() =~= shorter.to_set().insert(label));
            }
            seen.insert(label);
            k += 1;
        }
        proof {
            assert(labels@.take(k as int) =~= labels@);
        }
        let y_dim: usize = seen.len();
        Mnist { images, labels, x_dim, y_dim }
    }

    /// Each image with its label, as far as both are given.
    pub fn as_xy(&self) -> (out: Vec<(&Vec<T>, u32)>)
        ensures
            out.len() == self.images.len() || out.len() == self.labels.len(),
            out.len() <= self.images.len(),
            out.len() <= self.labels.len(),
            forall|i: int| 0 <= i < out.len() ==> #[trigger] out[i] == (&self.images[i], self.labels[i]),
    {
        let mut out: Vec<(&Vec<T>, u32)> = Vec::new();
        let mut k: usize = 0;
        while k < self.images.len() && k < self.labels.len()
            invariant
                k <= self.images.len(),
                k <= self.labels.len(),
                out.len() == k,
                forall|i: int| 0 <= i < k ==> #[trigger] out[i] == (&self.images[i], self.labels[i]),
            decreases self.images.len() - k,
        {
            out.push((&self.images[k], self.labels[k]));
            k += 1;
        }
        out
    }
}

} // verus!
