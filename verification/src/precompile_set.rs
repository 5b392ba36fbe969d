//! The addresses of the two endpoints and the dispatch between them.
//!
//! A hosting runtime asks [`PolkaPulsePrecompileSet::is_precompile`] whether
//! a call target belongs to the library and hands the call to
//! [`PolkaPulsePrecompileSet::execute`] if it does.

use crate::precompiles::{math_lib_precompile, yield_optimizer_precompile};
use vstd::prelude::*;

verus! {

/// Address of the endpoint for the single primitives: `0x…1001`.
pub const MATH_LIB_PRECOMPILE_ADDRESS: [u8; 20] = [
    0x00, 0x00, 0x00, 0x00, 0x00, 0x00, 0x00, 0x00, 0x00, 0x00, 0x00, 0x00, 0x00, 0x00, 0x00,
    0x00, 0x00, 0x00, 0x10, 0x01,
];

/// Address of the endpoint for the optimizer: `0x…1002`.
pub const YIELD_OPTIMIZER_PRECOMPILE_ADDRESS: [u8; 20] = [
    0x00, 0x00, 0x00, 0x00, 0x00, 0x00, 0x00, 0x00, 0x00, 0x00, 0x00, 0x00, 0x00, 0x00, 0x00,
    0x00, 0x00, 0x00, 0x10, 0x02,
];

/// Whether two addresses hold the same twenty bytes.
pub(crate) fn same_address(left: &[u8; 20], right: &[u8; 20]) -> (same: bool)
    ensures
        same == (left@ == right@),
{
    let mut next: usize = 0;
    while next < 20
        invariant
            next <= 20,
            forall|i: int| 0 <= i < next ==> left@[i] == right@[i],
        decreases 20 - next,
    {
        if left[next] != right[next] {
            return false;
        }
        next = next + 1;
    }
    assert(left@ =~= right@);
    true
}

/// The set of endpoints the library registers with a hosting runtime.
pub struct PolkaPulsePrecompileSet;

impl PolkaPulsePrecompileSet {
    /// Whether calls to `address` are answered by the library.
    pub open spec fn is_precompile_spec(address: [u8; 20]) -> bool {
        address@ == MATH_LIB_PRECOMPILE_ADDRESS@ || address@ == YIELD_OPTIMIZER_PRECOMPILE_ADDRESS@
    }

    /// What [`Self::execute`] returns.
    pub open spec fn execute_spec(address: [u8; 20], input: Seq<u8>) -> Option<Seq<u8>> {
        if address@ == MATH_LIB_PRECOMPILE_ADDRESS@ {
            Some(math_lib_precompile::call_spec(input))
        } else if address@ == YIELD_OPTIMIZER_PRECOMPILE_ADDRESS@ {
            Some(yield_optimizer_precompile::call_spec(input))
        } else {
            None
        }
    }

    /// Whether calls to `address` are answered by the library.
    pub fn is_precompile(address: &[u8; 20]) -> (known: bool)
        ensures
            known == Self::is_precompile_spec(*address),
    {
        same_address(address, &MATH_LIB_PRECOMPILE_ADDRESS) || same_address(
            address,
            &YIELD_OPTIMIZER_PRECOMPILE_ADDRESS,
        )
    }

    /// Answers a call to `address`, or returns `None` where the address is
    /// not one of the library's.
    pub fn execute(address: &[u8; 20], input: &[u8]) -> (reply: Option<Vec<u8>>)
        ensures
            reply is Some <==> Self::is_precompile_spec(*address),
            match reply {
                Some(bytes) => Self::execute_spec(*address, input@) == Some(bytes@),
                None => Self::execute_spec(*address, input@) is None,
            },
    {
        if same_address(address, &MATH_LIB_PRECOMPILE_ADDRESS) {
            return Some(math_lib_precompile::call(input));
        }
        if same_address(address, &YIELD_OPTIMIZER_PRECOMPILE_ADDRESS) {
            return Some(yield_optimizer_precompile::call(input));
        }
        None
    }
}

} // verus!
