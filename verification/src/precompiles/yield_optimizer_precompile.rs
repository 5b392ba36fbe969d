//! Endpoint for the optimizer.
//!
//! A call is the selector of `optimize` followed by the eight words of an
//! [`OptimizerInput`](crate::yield_optimizer::OptimizerInput). The reply is a
//! true flag followed by the six words of the recommendation, or a false flag
//! followed by an error code. [`call`] never fails: whatever the bytes, it
//! returns the reply that [`call_spec`] names.

use crate::abi::{
    abi_encode, decode_optimizer_input, decode_optimizer_input_spec, encode_error,
    encode_yield_recommendation, encoded, error_reply, has_selector, recommendation_values,
    well_formed_reply, AbiValue, ERR_DECODE_FAILED, ERR_DIVISION_BY_ZERO, ERR_INVALID_INPUT,
    ERR_OVERFLOW, ERR_UNDERFLOW, ERR_UNKNOWN_SELECTOR,
};
use crate::abi_laws::{
    lemma_encoded_concat, lemma_encoded_len, lemma_error_reply_shape,
    lemma_error_reply_well_formed, lemma_success_reply_well_formed,
};
use crate::math_lib::MathError;
use crate::yield_optimizer::{optimize, optimize_spec, OptimizerError};
use vstd::prelude::*;
use vstd::slice::slice_subrange;

verus! {

/// Selector that routes to `optimize(uint128,uint32,uint32,uint32,uint32,uint32,uint32,uint32)`.
pub const SEL_OPTIMIZE: [u8; 4] = [0x6f, 0x7a, 0x8b, 0x9c];

/// The reply code of an optimizer failure.
pub open spec fn optimizer_error_code_spec(e: OptimizerError) -> u32 {
    match e {
        OptimizerError::InvalidInput => ERR_INVALID_INPUT,
        OptimizerError::Math(m) => match m {
            MathError::Overflow => ERR_OVERFLOW,
            MathError::Underflow => ERR_UNDERFLOW,
            MathError::DivisionByZero => ERR_DIVISION_BY_ZERO,
            MathError::InvalidInput => ERR_INVALID_INPUT,
        },
    }
}

/// The reply code of an optimizer failure.
pub fn optimizer_error_code(e: &OptimizerError) -> (code: u32)
    ensures
        code == optimizer_error_code_spec(*e),
        1 <= code <= 4,
{
    match e {
        OptimizerError::InvalidInput => ERR_INVALID_INPUT,
        OptimizerError::Math(m) => match m {
            MathError::Overflow => ERR_OVERFLOW,
            MathError::Underflow => ERR_UNDERFLOW,
            MathError::DivisionByZero => ERR_DIVISION_BY_ZERO,
            MathError::InvalidInput => ERR_INVALID_INPUT,
        },
    }
}

/// What [`call`] returns for the bytes of a call.
pub open spec fn call_spec(input: Seq<u8>) -> Seq<u8> {
    if input.len() < 4 {
        error_reply(ERR_DECODE_FAILED)
    } else if input.subrange(0, 4) != SEL_OPTIMIZE@ {
        error_reply(ERR_UNKNOWN_SELECTOR)
    } else {
        match decode_optimizer_input_spec(input.subrange(4, input.len() as int)) {
            Some(request) => match optimize_spec(request) {
                Ok(recommendation) => encoded(seq![AbiValue::Bool(true)]) + encoded(
                    recommendation_values(recommendation),
                ),
                Err(e) => error_reply(optimizer_error_code_spec(e)),
            },
            None => error_reply(ERR_DECODE_FAILED),
        }
    }
}

/// Answers one call: checks the selector, decodes the request, runs the
/// optimizer and encodes the outcome.
///
/// A call shorter than a selector or with a request that cannot be decoded
/// is answered with [`ERR_DECODE_FAILED`], another selector with
/// [`ERR_UNKNOWN_SELECTOR`].
pub fn call(input: &[u8]) -> (reply: Vec<u8>)
    ensures
        reply@ == call_spec(input@),
        well_formed_reply(reply@),
        reply@.len() == 224 || reply@.len() == 64,
{
    proof {
        lemma_call_reply_well_formed(input@);
    }
    if input.len() < 4 {
        return encode_error(ERR_DECODE_FAILED);
    }
    if !has_selector(input, &SEL_OPTIMIZE) {
        return encode_error(ERR_UNKNOWN_SELECTOR);
    }
    let args = slice_subrange(input, 4, input.len());
    let request = match decode_optimizer_input(args) {
        Some(r) => r,
        None => {
            return encode_error(ERR_DECODE_FAILED);
        },
    };
    match optimize(&request) {
        Ok(recommendation) => {
            let flag = vec![AbiValue::Bool(true)];
            assert(flag@ =~= seq![AbiValue::Bool(true)]);
            let mut reply = abi_encode(&flag);
            let mut body = encode_yield_recommendation(&recommendation);
            reply.append(&mut body);
            reply
        },
        Err(e) => encode_error(optimizer_error_code(&e)),
    }
}

/// Whatever the bytes of a call, the reply is well formed: a true flag and
/// the six words of a recommendation, or a false flag and one of the six
/// error codes.
pub proof fn lemma_call_reply_well_formed(input: Seq<u8>)
    ensures
        well_formed_reply(call_spec(input)),
        call_spec(input).len() == 224 || call_spec(input).len() == 64,
{
    lemma_error_reply_well_formed(ERR_DECODE_FAILED);
    lemma_error_reply_well_formed(ERR_UNKNOWN_SELECTOR);
    lemma_error_reply_shape(ERR_DECODE_FAILED);
    lemma_error_reply_shape(ERR_UNKNOWN_SELECTOR);
    if input.len() >= 4 && input.subrange(0, 4) == SEL_OPTIMIZE@ {
        if let Some(request) = decode_optimizer_input_spec(input.subrange(4, input.len() as int)) {
            match optimize_spec(request) {
                Ok(recommendation) => {
                    let flag = seq![AbiValue::Bool(true)];
                    let fields = recommendation_values(recommendation);
                    lemma_encoded_concat(flag, fields);
                    lemma_success_reply_well_formed(flag + fields);
                    lemma_encoded_len(flag + fields);
                },
                Err(e) => {
                    lemma_error_reply_well_formed(optimizer_error_code_spec(e));
                    lemma_error_reply_shape(optimizer_error_code_spec(e));
                },
            }
        }
    }
}

} // verus!
