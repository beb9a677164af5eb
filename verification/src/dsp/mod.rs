//! Scalar DSP kernels: the reference implementations of the decoder's pixel
//! arithmetic.

pub mod vp8l;
pub mod vp8pred;
pub mod vp8;
