//! A reverse-mode automatic-differentiation engine over scalar values,
//! with a small multilayer-perceptron layer built on top of it.
//!
//! Scalars are IEEE-754 binary64 values carried everywhere as their raw
//! 64-bit patterns, so that the verified graph logic never touches a
//! floating-point type: the arithmetic itself is done by outside soft-float
//! and libm kernels behind a handful of trusted wrappers in [`scalar`].

pub mod engine;
pub mod nn;
pub mod scalar;
