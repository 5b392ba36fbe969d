//! Laws of the wire format, stated over the spec functions of
//! [`crate::abi`] and proved for all arguments.

use crate::abi::{
    be_bytes, be_value, decode_optimizer_input_spec, encoded, error_reply, fits_in,
    leading_numbers, leading_words, lemma_be_bytes_len, lemma_be_value_of_be_bytes,
    lemma_u128_fits_word, number_of, numbers_in, recommendation_values, well_formed_reply,
    word_of, AbiValue,
};
use crate::yield_optimizer::{OptimizerInput, YieldRecommendation};
use vstd::prelude::*;

verus! {

/// An encoding is 32 bytes for each value.
pub proof fn lemma_encoded_len(values: Seq<AbiValue>)
    ensures
        encoded(values).len() == 32 * values.len(),
    decreases values.len(),
{
    if values.len() > 0 {
        lemma_encoded_len(values.drop_last());
        lemma_be_bytes_len(number_of(values.last()), 32);
    }
}

/// Word `index` of an encoding is the word of value `index`.
pub proof fn lemma_encoded_word(values: Seq<AbiValue>, index: int)
    requires
        0 <= index < values.len(),
    ensures
        encoded(values).subrange(32 * index, 32 * index + 32) == word_of(values[index]),
    decreases values.len(),
{
    let front = values.drop_last();
    lemma_encoded_len(front);
    lemma_encoded_len(values);
    lemma_be_bytes_len(number_of(values.last()), 32);
    if index == values.len() - 1 {
        assert(encoded(values).subrange(32 * index, 32 * index + 32) =~= word_of(values.last()));
    } else {
        lemma_encoded_word(front, index);
        assert(encoded(values).subrange(32 * index, 32 * index + 32) =~= encoded(front).subrange(
            32 * index,
            32 * index + 32,
        ));
    }
}

/// Every value that can be sent fits its word.
pub proof fn lemma_number_fits_word(value: AbiValue)
    ensures
        fits_in(number_of(value), 32),
        be_value(word_of(value)) == number_of(value),
        number_of(value) <= u128::MAX,
{
    lemma_u128_fits_word(number_of(value) as u128);
    lemma_be_value_of_be_bytes(number_of(value), 32);
}

/// Decoding what was encoded gives back the numbers of the values: reading
/// the leading words of an encoding, even with other bytes after it, yields
/// each value's number.
pub proof fn lemma_decode_encoded(values: Seq<AbiValue>, rest: Seq<u8>)
    ensures
        leading_numbers(values.len(), encoded(values) + rest) == Some(
            Seq::new(values.len(), |i: int| number_of(values[i]) as u128),
        ),
{
    let data = encoded(values) + rest;
    lemma_encoded_len(values);
    let words = leading_words(values.len(), data).unwrap();
    assert forall|i: int| 0 <= i < words.len() implies be_value(#[trigger] words[i]) == number_of(
        values[i],
    ) && number_of(values[i]) <= u128::MAX by {
        lemma_encoded_word(values, i);
        lemma_number_fits_word(values[i]);
        assert(data.subrange(32 * i, 32 * i + 32) =~= encoded(values).subrange(
            32 * i,
            32 * i + 32,
        ));
    }
    assert(numbers_in(words).unwrap() =~= Seq::new(
        values.len(),
        |i: int| number_of(values[i]) as u128,
    ));
}

/// The values a request is sent as, in field order.
pub open spec fn request_values(request: OptimizerInput) -> Seq<AbiValue> {
    seq![
        AbiValue::Uint(request.principal),
        AbiValue::Uint(request.hydradx_apy_bps as u128),
        AbiValue::Uint(request.interlay_apy_bps as u128),
        AbiValue::Uint(request.hydradx_fee_bps as u128),
        AbiValue::Uint(request.interlay_fee_bps as u128),
        AbiValue::Uint(request.hydradx_risk_score as u128),
        AbiValue::Uint(request.interlay_risk_score as u128),
        AbiValue::Uint(request.projection_periods as u128),
    ]
}

/// A request that is encoded field by field decodes to itself, whatever
/// follows it in the payload.
pub proof fn lemma_request_round_trip(request: OptimizerInput, rest: Seq<u8>)
    ensures
        decode_optimizer_input_spec(encoded(request_values(request)) + rest) == Some(request),
{
    lemma_decode_encoded(request_values(request), rest);
}

/// The bytes of zero are all zero.
pub proof fn lemma_be_bytes_of_zero(len: nat)
    ensures
        be_bytes(0, len) == Seq::new(len, |i: int| 0u8),
    decreases len,
{
    if len > 0 {
        lemma_be_bytes_of_zero((len - 1) as nat);
    }
    lemma_be_bytes_len(0, len);
    assert(be_bytes(0, len) =~= Seq::new(len, |i: int| 0u8));
}

/// A flag is sent as 31 zero bytes followed by a byte that is 0 or 1.
pub proof fn lemma_flag_word(flag: bool)
    ensures
        word_of(AbiValue::Bool(flag)) == Seq::new(31, |i: int| 0u8).push(
            if flag {
                1u8
            } else {
                0u8
            },
        ),
{
    lemma_be_bytes_of_zero(31);
}

/// The reply to a failed call is two words: an all-zero flag word, then the
/// word that holds the error code.
pub proof fn lemma_error_reply_shape(error_code: u32)
    ensures
        error_reply(error_code).len() == 64,
        error_reply(error_code).subrange(0, 32) == Seq::new(32, |i: int| 0u8),
        be_value(error_reply(error_code).subrange(32, 64)) == error_code,
{
    let values = seq![AbiValue::Bool(false), AbiValue::Uint(error_code as u128)];
    lemma_encoded_len(values);
    lemma_encoded_word(values, 0);
    lemma_encoded_word(values, 1);
    lemma_be_bytes_of_zero(32);
    lemma_number_fits_word(values[1]);
}

/// An encoded recommendation is six words, and its first two words are
/// flags.
pub proof fn lemma_recommendation_shape(rec: YieldRecommendation)
    ensures
        encoded(recommendation_values(rec)).len() == 192,
        encoded(recommendation_values(rec)).subrange(0, 32) == word_of(
            AbiValue::Bool(rec.use_hydradx),
        ),
        encoded(recommendation_values(rec)).subrange(32, 64) == word_of(
            AbiValue::Bool(rec.use_interlay),
        ),
{
    lemma_encoded_len(recommendation_values(rec));
    lemma_encoded_word(recommendation_values(rec), 0);
    lemma_encoded_word(recommendation_values(rec), 1);
}

/// Encoding two lists one after the other is encoding their concatenation.
pub proof fn lemma_encoded_concat(first: Seq<AbiValue>, second: Seq<AbiValue>)
    ensures
        encoded(first + second) == encoded(first) + encoded(second),
    decreases second.len(),
{
    if second.len() == 0 {
        assert(first + second =~= first);
        assert(encoded(first) + encoded(second) =~= encoded(first));
    } else {
        lemma_encoded_concat(first, second.drop_last());
        assert((first + second).drop_last() =~= first + second.drop_last());
        assert((first + second).last() == second.last());
        assert(encoded(first + second) =~= encoded(first) + encoded(second));
    }
}

/// An error reply that carries one of the six codes is well formed.
pub proof fn lemma_error_reply_well_formed(error_code: u32)
    requires
        1 <= error_code <= 6,
    ensures
        well_formed_reply(error_reply(error_code)),
{
    let values = seq![AbiValue::Bool(false), AbiValue::Uint(error_code as u128)];
    lemma_encoded_len(values);
    lemma_encoded_word(values, 0);
    lemma_encoded_word(values, 1);
    lemma_number_fits_word(values[1]);
}

/// An encoding that starts with a true flag and holds at least one more
/// value is well formed.
pub proof fn lemma_success_reply_well_formed(values: Seq<AbiValue>)
    requires
        values.len() >= 2,
        values[0] == AbiValue::Bool(true),
    ensures
        well_formed_reply(encoded(values)),
{
    lemma_encoded_len(values);
    lemma_encoded_word(values, 0);
}

} // verus!
