//! A feed-forward neural network, generic over its scalar type: layers built
//! one by one, forward inference, backpropagation, gradients averaged over a
//! batch, and gradient descent.

pub mod scalar;
pub mod matrix;
pub mod vector;
pub mod nn;
pub mod opt;
