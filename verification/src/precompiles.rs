//! The two call endpoints a hosting runtime reaches the library through.
//! Each takes the raw bytes of a call and returns the raw bytes of the reply.

pub mod math_lib_precompile;
pub mod yield_optimizer_precompile;
