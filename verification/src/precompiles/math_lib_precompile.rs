//! Endpoint for the single primitives.
//!
//! A call is a four-byte selector followed by the ABI-encoded arguments of
//! the primitive it selects. The reply is a success flag followed by the
//! result words, or a false flag followed by an error code. [`call`] never
//! fails: whatever the bytes, it returns the reply that [`call_spec`] names.

use crate::abi::{
    abi_decode, abi_encode, arg_at, args_view, array_at, decode_numbers, decoded, encode_error,
    encoded, error_reply, has_selector, leading_numbers, narrow_to_u32, narrow_to_u64,
    numbers_in, well_formed_reply, words_to_numbers, words_view, AbiKind, AbiValue,
    ERR_DECODE_FAILED, ERR_DIVISION_BY_ZERO, ERR_INVALID_INPUT, ERR_OVERFLOW, ERR_UNDERFLOW,
    ERR_UNKNOWN_SELECTOR,
};
use crate::abi_laws::{lemma_error_reply_well_formed, lemma_success_reply_well_formed};
use crate::math_lib::{
    annualize, annualize_spec, compound, compound_spec, fee_adjusted_yield,
    fee_adjusted_yield_spec, optimal_split, optimal_split_spec, weighted_average,
    weighted_average_spec, MathError,
};
use vstd::prelude::*;
use vstd::slice::slice_subrange;

verus! {

/// Selector that routes to `compound(uint128,uint32,uint32)`.
pub const SEL_COMPOUND: [u8; 4] = [0x1a, 0x2b, 0x3c, 0x4d];

/// Selector that routes to `annualize(uint32,uint64)`.
pub const SEL_ANNUALIZE: [u8; 4] = [0x2b, 0x3c, 0x4d, 0x5e];

/// Selector that routes to `feeAdjustedYield(uint128,uint32)`.
pub const SEL_FEE_ADJUSTED: [u8; 4] = [0x3c, 0x4d, 0x5e, 0x6f];

/// Selector that routes to `weightedAverage(uint128[],uint128[])`.
pub const SEL_WEIGHTED_AVG: [u8; 4] = [0x4d, 0x5e, 0x6f, 0x7a];

/// Selector that routes to `optimalSplit(uint32,uint32,uint32,uint32)`.
pub const SEL_OPTIMAL_SPLIT: [u8; 4] = [0x5e, 0x6f, 0x7a, 0x8b];

/// The reply code of an arithmetic failure.
pub open spec fn math_error_code_spec(e: MathError) -> u32 {
    match e {
        MathError::InvalidInput => ERR_INVALID_INPUT,
        MathError::Overflow => ERR_OVERFLOW,
        MathError::Underflow => ERR_UNDERFLOW,
        MathError::DivisionByZero => ERR_DIVISION_BY_ZERO,
    }
}

/// The reply code of an arithmetic failure.
pub fn math_error_code(e: &MathError) -> (code: u32)
    ensures
        code == math_error_code_spec(*e),
        1 <= code <= 4,
{
    match e {
        MathError::InvalidInput => ERR_INVALID_INPUT,
        MathError::Overflow => ERR_OVERFLOW,
        MathError::Underflow => ERR_UNDERFLOW,
        MathError::DivisionByZero => ERR_DIVISION_BY_ZERO,
    }
}

/// The reply that carries one number.
pub open spec fn number_reply(outcome: Result<u128, MathError>) -> Seq<u8> {
    match outcome {
        Ok(number) => encoded(seq![AbiValue::Bool(true), AbiValue::Uint(number)]),
        Err(e) => error_reply(math_error_code_spec(e)),
    }
}

/// The reply to `compound(uint128,uint32,uint32)`.
pub open spec fn compound_reply(args: Seq<u8>) -> Seq<u8> {
    match leading_numbers(3, args) {
        Some(n) => if n[1] > u32::MAX || n[2] > u32::MAX {
            error_reply(ERR_DECODE_FAILED)
        } else {
            number_reply(compound_spec(n[0], n[1] as u32, n[2] as u32))
        },
        None => error_reply(ERR_DECODE_FAILED),
    }
}

/// The reply to `annualize(uint32,uint64)`.
pub open spec fn annualize_reply(args: Seq<u8>) -> Seq<u8> {
    match leading_numbers(2, args) {
        Some(n) => if n[0] > u32::MAX || n[1] > u64::MAX {
            error_reply(ERR_DECODE_FAILED)
        } else {
            match annualize_spec(n[0] as u32, n[1] as u64) {
                Ok(rate) => number_reply(Ok(rate as u128)),
                Err(e) => number_reply(Err(e)),
            }
        },
        None => error_reply(ERR_DECODE_FAILED),
    }
}

/// The reply to `feeAdjustedYield(uint128,uint32)`.
pub open spec fn fee_adjusted_yield_reply(args: Seq<u8>) -> Seq<u8> {
    match leading_numbers(2, args) {
        Some(n) => if n[1] > u32::MAX {
            error_reply(ERR_DECODE_FAILED)
        } else {
            number_reply(fee_adjusted_yield_spec(n[0], n[1] as u32))
        },
        None => error_reply(ERR_DECODE_FAILED),
    }
}

/// The reply to `weightedAverage(uint128[],uint128[])`. Arrays are decoded
/// on 64-bit targets only.
pub open spec fn weighted_average_reply(args: Seq<u8>) -> Seq<u8> {
    if usize::BITS != 64 {
        error_reply(ERR_DECODE_FAILED)
    } else {
        match (array_at(args, 0), array_at(args, 32)) {
            (Some(values), Some(weights)) => match (numbers_in(values), numbers_in(weights)) {
                (Some(v), Some(w)) => number_reply(weighted_average_spec(v, w)),
                _ => error_reply(ERR_DECODE_FAILED),
            },
            _ => error_reply(ERR_DECODE_FAILED),
        }
    }
}

/// The reply to `optimalSplit(uint32,uint32,uint32,uint32)`.
pub open spec fn optimal_split_reply(args: Seq<u8>) -> Seq<u8> {
    match leading_numbers(4, args) {
        Some(n) => if n[0] > u32::MAX || n[1] > u32::MAX || n[2] > u32::MAX || n[3] > u32::MAX {
            error_reply(ERR_DECODE_FAILED)
        } else {
            match optimal_split_spec(n[0] as u32, n[1] as u32, n[2] as u32, n[3] as u32) {
                Ok(shares) => encoded(
                    seq![
                        AbiValue::Bool(true),
                        AbiValue::Uint(shares.0 as u128),
                        AbiValue::Uint(shares.1 as u128),
                    ],
                ),
                Err(e) => error_reply(math_error_code_spec(e)),
            }
        },
        None => error_reply(ERR_DECODE_FAILED),
    }
}

/// What [`call`] returns for the bytes of a call.
pub open spec fn call_spec(input: Seq<u8>) -> Seq<u8> {
    if input.len() < 4 {
        error_reply(ERR_DECODE_FAILED)
    } else {
        let selector = input.subrange(0, 4);
        let args = input.subrange(4, input.len() as int);
        if selector == SEL_COMPOUND@ {
            compound_reply(args)
        } else if selector == SEL_ANNUALIZE@ {
            annualize_reply(args)
        } else if selector == SEL_FEE_ADJUSTED@ {
            fee_adjusted_yield_reply(args)
        } else if selector == SEL_WEIGHTED_AVG@ {
            weighted_average_reply(args)
        } else if selector == SEL_OPTIMAL_SPLIT@ {
            optimal_split_reply(args)
        } else {
            error_reply(ERR_UNKNOWN_SELECTOR)
        }
    }
}

/// Encodes the outcome of a primitive that yields one number.
fn encode_number(outcome: Result<u128, MathError>) -> (reply: Vec<u8>)
    ensures
        reply@ == number_reply(outcome),
{
    match outcome {
        Ok(number) => {
            let values = vec![AbiValue::Bool(true), AbiValue::Uint(number)];
            assert(values@ =~= seq![AbiValue::Bool(true), AbiValue::Uint(number)]);
            abi_encode(&values)
        },
        Err(e) => encode_error(math_error_code(&e)),
    }
}

/// Answers `compound(uint128 principal, uint32 rate_bps, uint32 periods)`
/// with one number.
fn handle_compound(args: &[u8]) -> (reply: Vec<u8>)
    ensures
        reply@ == compound_reply(args@),
{
    let kinds: [AbiKind; 3] = [AbiKind::Uint(128), AbiKind::Uint(32), AbiKind::Uint(32)];
    let numbers = match decode_numbers(&kinds, args) {
        Some(n) => n,
        None => {
            return encode_error(ERR_DECODE_FAILED);
        },
    };
    let rate_bps = match narrow_to_u32(numbers[1]) {
        Some(v) => v,
        None => {
            return encode_error(ERR_DECODE_FAILED);
        },
    };
    let periods = match narrow_to_u32(numbers[2]) {
        Some(v) => v,
        None => {
            return encode_error(ERR_DECODE_FAILED);
        },
    };
    encode_number(compound(numbers[0], rate_bps, periods))
}

/// Answers `annualize(uint32 rate_bps, uint64 period_seconds)` with one
/// number.
fn handle_annualize(args: &[u8]) -> (reply: Vec<u8>)
    ensures
        reply@ == annualize_reply(args@),
{
    let kinds: [AbiKind; 2] = [AbiKind::Uint(32), AbiKind::Uint(64)];
    let numbers = match decode_numbers(&kinds, args) {
        Some(n) => n,
        None => {
            return encode_error(ERR_DECODE_FAILED);
        },
    };
    let rate_bps = match narrow_to_u32(numbers[0]) {
        Some(v) => v,
        None => {
            return encode_error(ERR_DECODE_FAILED);
        },
    };
    let period_seconds = match narrow_to_u64(numbers[1]) {
        Some(v) => v,
        None => {
            return encode_error(ERR_DECODE_FAILED);
        },
    };
    match annualize(rate_bps, period_seconds) {
        Ok(rate) => encode_number(Ok(rate as u128)),
        Err(e) => encode_number(Err(e)),
    }
}

/// Answers `feeAdjustedYield(uint128 gross_yield, uint32 fee_bps)` with one
/// number.
fn handle_fee_adjusted_yield(args: &[u8]) -> (reply: Vec<u8>)
    ensures
        reply@ == fee_adjusted_yield_reply(args@),
{
    let kinds: [AbiKind; 2] = [AbiKind::Uint(128), AbiKind::Uint(32)];
    let numbers = match decode_numbers(&kinds, args) {
        Some(n) => n,
        None => {
            return encode_error(ERR_DECODE_FAILED);
        },
    };
    let fee_bps = match narrow_to_u32(numbers[1]) {
        Some(v) => v,
        None => {
            return encode_error(ERR_DECODE_FAILED);
        },
    };
    encode_number(fee_adjusted_yield(numbers[0], fee_bps))
}

/// Answers `weightedAverage(uint128[] values, uint128[] weights)` with one
/// number. Each array is found through the position in its head word.
fn handle_weighted_average(args: &[u8]) -> (reply: Vec<u8>)
    ensures
        reply@ == weighted_average_reply(args@),
{
    if usize::BITS != 64 {
        return encode_error(ERR_DECODE_FAILED);
    }
    let kinds: [AbiKind; 2] = [AbiKind::UintArray(128), AbiKind::UintArray(128)];
    let arrays = match abi_decode(&kinds, args) {
        Some(a) => a,
        None => {
            proof {
                let i = choose|i: int|
                    0 <= i < 2 && !((#[trigger] arg_at(kinds@[i], args@, 32 * i))
                        is Some);
                assert(i == 0 || i == 1);
            }
            return encode_error(ERR_DECODE_FAILED);
        },
    };
    proof {
        let found = decoded(kinds@, args@).unwrap();
        assert(arg_at(kinds@[0], args@, 32 * 0int) is Some);
        assert(arg_at(kinds@[1], args@, 32 * 1int) is Some);
        assert(found.len() == 2);
        assert(args_view(arrays@).len() == arrays@.len());
        assert(found[0] == array_at(args@, 0).unwrap());
        assert(found[1] == array_at(args@, 32).unwrap());
        assert(args_view(arrays@)[0] == words_view(arrays@[0]@));
        assert(args_view(arrays@)[1] == words_view(arrays@[1]@));
    }
    let values = match words_to_numbers(&arrays[0]) {
        Some(v) => v,
        None => {
            return encode_error(ERR_DECODE_FAILED);
        },
    };
    let weights = match words_to_numbers(&arrays[1]) {
        Some(w) => w,
        None => {
            return encode_error(ERR_DECODE_FAILED);
        },
    };
    encode_number(weighted_average(values.as_slice(), weights.as_slice()))
}

/// Answers `optimalSplit(uint32 yield_a, uint32 yield_b, uint32 risk_a,
/// uint32 risk_b)` with the two shares.
fn handle_optimal_split(args: &[u8]) -> (reply: Vec<u8>)
    ensures
        reply@ == optimal_split_reply(args@),
{
    let kinds: [AbiKind; 4] = [
        AbiKind::Uint(32),
        AbiKind::Uint(32),
        AbiKind::Uint(32),
        AbiKind::Uint(32),
    ];
    let numbers = match decode_numbers(&kinds, args) {
        Some(n) => n,
        None => {
            return encode_error(ERR_DECODE_FAILED);
        },
    };
    let yield_a = match narrow_to_u32(numbers[0]) {
        Some(v) => v,
        None => {
            return encode_error(ERR_DECODE_FAILED);
        },
    };
    let yield_b = match narrow_to_u32(numbers[1]) {
        Some(v) => v,
        None => {
            return encode_error(ERR_DECODE_FAILED);
        },
    };
    let risk_a = match narrow_to_u32(numbers[2]) {
        Some(v) => v,
        None => {
            return encode_error(ERR_DECODE_FAILED);
        },
    };
    let risk_b = match narrow_to_u32(numbers[3]) {
        Some(v) => v,
        None => {
            return encode_error(ERR_DECODE_FAILED);
        },
    };
    match optimal_split(yield_a, yield_b, risk_a, risk_b) {
        Ok((share_a, share_b)) => {
            let values = vec![
                AbiValue::Bool(true),
                AbiValue::Uint(share_a as u128),
                AbiValue::Uint(share_b as u128),
            ];
            assert(values@ =~= seq![
                AbiValue::Bool(true),
                AbiValue::Uint(share_a as u128),
                AbiValue::Uint(share_b as u128),
            ]);
            abi_encode(&values)
        },
        Err(e) => encode_error(math_error_code(&e)),
    }
}

/// Answers one call: routes it by its selector, decodes the arguments, runs
/// the primitive and encodes the outcome.
///
/// A call shorter than a selector or with arguments that cannot be decoded
/// is answered with [`ERR_DECODE_FAILED`], an unknown selector with
/// [`ERR_UNKNOWN_SELECTOR`].
pub fn call(input: &[u8]) -> (reply: Vec<u8>)
    ensures
        reply@ == call_spec(input@),
        well_formed_reply(reply@),
{
    proof {
        lemma_call_reply_well_formed(input@);
    }
    if input.len() < 4 {
        return encode_error(ERR_DECODE_FAILED);
    }
    let args = slice_subrange(input, 4, input.len());
    if has_selector(input, &SEL_COMPOUND) {
        handle_compound(args)
    } else if has_selector(input, &SEL_ANNUALIZE) {
        handle_annualize(args)
    } else if has_selector(input, &SEL_FEE_ADJUSTED) {
        handle_fee_adjusted_yield(args)
    } else if has_selector(input, &SEL_WEIGHTED_AVG) {
        handle_weighted_average(args)
    } else if has_selector(input, &SEL_OPTIMAL_SPLIT) {
        handle_optimal_split(args)
    } else {
        encode_error(ERR_UNKNOWN_SELECTOR)
    }
}

/// The reply that carries one number is well formed.
pub proof fn lemma_number_reply_well_formed(outcome: Result<u128, MathError>)
    ensures
        well_formed_reply(number_reply(outcome)),
{
    match outcome {
        Ok(number) => {
            lemma_success_reply_well_formed(seq![AbiValue::Bool(true), AbiValue::Uint(number)]);
        },
        Err(e) => {
            lemma_error_reply_well_formed(math_error_code_spec(e));
        },
    }
}

/// Whatever the bytes of a call, the reply is well formed: a true flag and
/// the result words, or a false flag and one of the six error codes.
pub proof fn lemma_call_reply_well_formed(input: Seq<u8>)
    ensures
        well_formed_reply(call_spec(input)),
{
    lemma_error_reply_well_formed(ERR_DECODE_FAILED);
    lemma_error_reply_well_formed(ERR_UNKNOWN_SELECTOR);
    if input.len() >= 4 {
        let args = input.subrange(4, input.len() as int);
        assert(well_formed_reply(compound_reply(args))) by {
            if let Some(n) = leading_numbers(3, args) {
                if n[1] <= u32::MAX && n[2] <= u32::MAX {
                    lemma_number_reply_well_formed(compound_spec(n[0], n[1] as u32, n[2] as u32));
                }
            }
        }
        assert(well_formed_reply(annualize_reply(args))) by {
            if let Some(n) = leading_numbers(2, args) {
                if n[0] <= u32::MAX && n[1] <= u64::MAX {
                    match annualize_spec(n[0] as u32, n[1] as u64) {
                        Ok(rate) => lemma_number_reply_well_formed(Ok(rate as u128)),
                        Err(e) => lemma_number_reply_well_formed(Err(e)),
                    }
                }
            }
        }
        assert(well_formed_reply(fee_adjusted_yield_reply(args))) by {
            if let Some(n) = leading_numbers(2, args) {
                if n[1] <= u32::MAX {
                    lemma_number_reply_well_formed(fee_adjusted_yield_spec(n[0], n[1] as u32));
                }
            }
        }
        assert(well_formed_reply(weighted_average_reply(args))) by {
            if usize::BITS == 64 {
                if let (Some(values), Some(weights)) = (array_at(args, 0), array_at(args, 32)) {
                    if let (Some(v), Some(w)) = (numbers_in(values), numbers_in(weights)) {
                        lemma_number_reply_well_formed(weighted_average_spec(v, w));
                    }
                }
            }
        }
        assert(well_formed_reply(optimal_split_reply(args))) by {
            if let Some(n) = leading_numbers(4, args) {
                if n[0] <= u32::MAX && n[1] <= u32::MAX && n[2] <= u32::MAX && n[3] <= u32::MAX {
                    match optimal_split_spec(n[0] as u32, n[1] as u32, n[2] as u32, n[3] as u32) {
                        Ok(shares) => lemma_success_reply_well_formed(
                            seq![
                                AbiValue::Bool(true),
                                AbiValue::Uint(shares.0 as u128),
                                AbiValue::Uint(shares.1 as u128),
                            ],
                        ),
                        Err(e) => lemma_error_reply_well_formed(math_error_code_spec(e)),
                    }
                }
            }
        }
    }
}

} // verus!
