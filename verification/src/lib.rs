//! wpd: a WebP decoder core whose container walk, bit readers, prefix codes,
//! transforms and pixel kernels are verified with Verus.

pub mod error;
pub mod image;
pub mod bits;
pub mod input;
pub mod options;
pub mod anim;
pub mod container;
pub mod cpu;
pub mod dsp;
pub mod rescale;
pub mod picture;
pub mod driver;
pub mod api;
pub mod vp8;
pub mod blit;
pub mod vp8l;
pub mod dispatch;
