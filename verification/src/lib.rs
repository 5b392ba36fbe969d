//! Deterministic fixed-point yield mathematics and the allocation optimizer
//! built on it, together with the byte-level call interface through which a
//! hosting runtime reaches both.
//!
//! Every amount is an unsigned integer scaled by [`math_lib::PRECISION`];
//! every rate is expressed in basis points. No function reads a clock, a
//! random source or any state outside its arguments.
//!
//! Every operation is total: each arithmetic step is checked, and a result
//! that does not fit is reported as an error, never wrapped. The supported
//! range is a principal of up to a billion whole units, yields and fees of
//! up to 100%, risk scores of up to 10 000 and up to 365 periods; within it
//! the optimizer always succeeds
//! ([`optimizer_laws::lemma_optimize_succeeds_in_range`]).

pub mod math_lib;
pub mod math_laws;
pub mod period_laws;
pub mod yield_optimizer;
pub mod optimizer_laws;
pub mod abi;
pub mod abi_laws;
pub mod precompiles;
pub mod precompile_set;

pub use precompile_set::{
    PolkaPulsePrecompileSet, MATH_LIB_PRECOMPILE_ADDRESS, YIELD_OPTIMIZER_PRECOMPILE_ADDRESS,
};
