//! A small reverse-mode automatic-differentiation engine over scalars.
//!
//! An expression is built as a graph of inputs, immediates and binary
//! operations, frozen into a dense array, evaluated in one forward sweep and
//! differentiated in one reverse sweep. The scalar type and its primitive
//! arithmetic are supplied by the caller; every contract holds for any
//! mathematical model that the supplied arithmetic conforms to.
//!
//! - [`node`]: handles, their allocator, and the node model.
//! - [`scalar`]: the arithmetic that the engine is generic in, and its models.
//! - [`builder`]: fragments, which combine into larger fragments.
//! - [`graph`]: the frozen graph and its forward sweep.
//! - [`backward`]: the reverse sweep, and how gradients accumulate.
//! - [`derivative`]: in exact arithmetic, gradients are derivatives.
//! - [`optimiser`]: gradient descent and Adam.
//! - [`nn`]: neurons and the multi-layer perceptron.
//! - [`data`]: a labelled data set.
//! - [`util`]: the place of the greatest score, and the running mean.

pub mod node;
pub mod scalar;
pub mod builder;
pub mod graph;
pub mod backward;
pub mod derivative;
pub mod optimiser;
pub mod nn;
pub mod data;
pub mod util;
