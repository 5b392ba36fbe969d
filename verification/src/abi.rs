//! The wire format of calls and replies.
//!
//! Arguments and results travel as contract-ABI words: 32 bytes each, the
//! value big-endian and right-aligned. Encoding and decoding are done by the
//! `ethabi` crate; this module states what that crate returns for the shapes
//! used here, and checks in verified code that each decoded word fits the
//! field it is meant for.

use crate::abi_laws::{lemma_error_reply_shape, lemma_recommendation_shape};
use crate::yield_optimizer::{OptimizerInput, YieldRecommendation};
use ethabi::{ParamType, Token};
use vstd::prelude::*;

verus! {

/// A value that can be sent: a flag or an unsigned number of up to 128 bits.
#[derive(Debug, PartialEq, Eq, Clone, Copy, Structural)]
pub enum AbiValue {
    /// A flag, sent as the number 0 or 1.
    Bool(bool),
    /// An unsigned number.
    Uint(u128),
}

/// The shape of an argument to decode: an unsigned number of the given
/// width in bits, or a variable-length array of such numbers.
#[derive(Debug, PartialEq, Eq, Clone, Copy, Structural)]
pub enum AbiKind {
    /// One unsigned number of the given width in bits.
    Uint(usize),
    /// An array of unsigned numbers of the given width in bits.
    UintArray(usize),
}

/// The number that `bytes` hold, most significant byte first.
pub open spec fn be_value(bytes: Seq<u8>) -> nat
    decreases bytes.len(),
{
    if bytes.len() == 0 {
        0
    } else {
        be_value(bytes.drop_last()) * 256 + bytes.last() as nat
    }
}

/// The `len` low base-256 digits of `value`, most significant first.
pub open spec fn be_bytes(value: nat, len: nat) -> Seq<u8>
    decreases len,
{
    if len == 0 {
        Seq::empty()
    } else {
        be_bytes(value / 256, (len - 1) as nat).push((value % 256) as u8)
    }
}

/// Whether `value` has at most `len` base-256 digits.
pub open spec fn fits_in(value: nat, len: nat) -> bool
    decreases len,
{
    if len == 0 {
        value == 0
    } else {
        fits_in(value / 256, (len - 1) as nat)
    }
}

/// The number a value is sent as.
pub open spec fn number_of(value: AbiValue) -> nat {
    match value {
        AbiValue::Bool(b) => if b {
            1
        } else {
            0
        },
        AbiValue::Uint(n) => n as nat,
    }
}

/// The word a value is sent as.
pub open spec fn word_of(value: AbiValue) -> Seq<u8> {
    be_bytes(number_of(value), 32)
}

/// The encoding of a list of values: their words, one after the other.
pub open spec fn encoded(values: Seq<AbiValue>) -> Seq<u8>
    decreases values.len(),
{
    if values.len() == 0 {
        Seq::empty()
    } else {
        encoded(values.drop_last()) + word_of(values.last())
    }
}

/// The word that starts at byte `at` of `data`, if `data` holds all of it.
pub open spec fn word_at(data: Seq<u8>, at: int) -> Option<Seq<u8>> {
    if 0 <= at && at + 32 <= data.len() {
        Some(data.subrange(at, at + 32))
    } else {
        None
    }
}

/// The word at `at` read as a position or a count: a number of at most 32
/// bits.
pub open spec fn offset_at(data: Seq<u8>, at: int) -> Option<nat> {
    match word_at(data, at) {
        Some(word) => if be_value(word) <= 0xffff_ffff {
            Some(be_value(word))
        } else {
            None
        },
        None => None,
    }
}

/// The words of the array whose position is written at `head`: at that
/// position stands the count, and after the count the elements.
pub open spec fn array_at(data: Seq<u8>, head: int) -> Option<Seq<Seq<u8>>> {
    match offset_at(data, head) {
        Some(start) => match offset_at(data, start as int) {
            Some(count) => if start + 32 + 32 * count <= data.len() {
                Some(
                    Seq::new(
                        count,
                        |j: int| data.subrange(start + 32 + 32 * j, start + 64 + 32 * j),
                    ),
                )
            } else {
                None
            },
            None => None,
        },
        None => None,
    }
}

/// The words of the argument of shape `kind` whose head word is at `head`: a
/// number is its own single word.
pub open spec fn arg_at(kind: AbiKind, data: Seq<u8>, head: int) -> Option<Seq<Seq<u8>>> {
    match kind {
        AbiKind::Uint(_) => match word_at(data, head) {
            Some(word) => Some(seq![word]),
            None => None,
        },
        AbiKind::UintArray(_) => array_at(data, head),
    }
}

/// The words of each argument in `data`, argument `i` having its head word
/// at byte `32 * i`; `None` where any argument cannot be read.
pub open spec fn decoded(kinds: Seq<AbiKind>, data: Seq<u8>) -> Option<Seq<Seq<Seq<u8>>>> {
    if forall|i: int| 0 <= i < kinds.len() ==> (#[trigger] arg_at(kinds[i], data, 32 * i)) is Some {
        Some(Seq::new(kinds.len(), |i: int| arg_at(kinds[i], data, 32 * i).unwrap()))
    } else {
        None
    }
}

/// The bytes of each word of a list.
pub open spec fn words_view(words: Seq<[u8; 32]>) -> Seq<Seq<u8>> {
    Seq::new(words.len(), |i: int| words[i]@)
}

/// The bytes of each word of each argument of a list.
pub open spec fn args_view(args: Seq<Vec<[u8; 32]>>) -> Seq<Seq<Seq<u8>>> {
    Seq::new(args.len(), |i: int| words_view(args[i]@))
}

/// `ethabi::encode` on flags and unsigned numbers.
///
/// Trusted: the result holds one 32-byte word per value, in order; a number
/// is written big-endian and a flag as the number 0 or 1. The crate counts
/// the bytes of the words in 32 bits, so the list must be short enough for
/// that count.
#[verifier::external_body]
pub(crate) fn abi_encode(values: &Vec<AbiValue>) -> (bytes: Vec<u8>)
    requires
        values.len() <= 0x07ff_ffff,
    ensures
        bytes@ == encoded(values@),
{
    let tokens: Vec<Token> = values.iter().map(|v| match v {
        AbiValue::Bool(b) => Token::Bool(*b),
        AbiValue::Uint(n) => Token::Uint((*n).into()),
    }).collect();
    ethabi::encode(&tokens)
}

/// `ethabi::decode` on numbers and arrays of numbers, each decoded word
/// handed back as its 32 bytes.
///
/// Trusted: argument `i` is read from the head word at byte `32 * i`. A
/// number is that word, whatever its declared width. An array's head word
/// holds the position of its count, and its elements follow the count; the
/// crate rejects a position or count of more than 32 bits. Bytes that no
/// argument refers to are ignored. Decoding fails as soon as a word to read
/// lies outside `data`. The crate adds 32 to positions it has read, which a
/// 64-bit `usize` always holds.
#[verifier::external_body]
pub(crate) fn abi_decode(kinds: &[AbiKind], data: &[u8]) -> (args: Option<Vec<Vec<[u8; 32]>>>)
    requires
        forall|i: int| 0 <= i < kinds@.len() && kinds@[i] is UintArray ==> usize::BITS == 64,
    ensures
        match args {
            Some(found) => decoded(kinds@, data@) == Some(args_view(found@)),
            None => decoded(kinds@, data@) is None,
        },
{
    let types: Vec<ParamType> = kinds.iter().map(|k| match k {
        AbiKind::Uint(bits) => ParamType::Uint(*bits),
        AbiKind::UintArray(bits) => ParamType::Array(Box::new(ParamType::Uint(*bits))),
    }).collect();
    let tokens = ethabi::decode(&types, data).ok()?;
    tokens.into_iter().map(|t| match t {
        Token::Array(items) => items.into_iter().map(|e| e.into_uint().map(|u| u.into())).collect(),
        other => other.into_uint().map(|u| vec![u.into()]),
    }).collect()
}

/// Writing `len` digits gives `len` bytes.
pub proof fn lemma_be_bytes_len(value: nat, len: nat)
    ensures
        be_bytes(value, len).len() == len,
    decreases len,
{
    if len > 0 {
        lemma_be_bytes_len(value / 256, (len - 1) as nat);
    }
}

/// Writing a number that fits and reading it back gives the number.
pub proof fn lemma_be_value_of_be_bytes(value: nat, len: nat)
    requires
        fits_in(value, len),
    ensures
        be_value(be_bytes(value, len)) == value,
    decreases len,
{
    if len > 0 {
        let rest = (len - 1) as nat;
        lemma_be_value_of_be_bytes(value / 256, rest);
        let written = be_bytes(value, len);
        assert(written.drop_last() =~= be_bytes(value / 256, rest));
        assert(written.last() == (value % 256) as u8);
    }
}

/// A number that fits some digits fits more.
pub proof fn lemma_fits_in_more(value: nat, len: nat, more: nat)
    requires
        fits_in(value, len),
        len <= more,
    ensures
        fits_in(value, more),
    decreases more,
{
    if len == 0 {
        if more > 0 {
            lemma_fits_in_more(0, 0, (more - 1) as nat);
        }
    } else {
        lemma_fits_in_more(value / 256, (len - 1) as nat, (more - 1) as nat);
    }
}

/// Every 128-bit number fits a word.
pub proof fn lemma_u128_fits_word(value: u128)
    ensures
        fits_in(value as nat, 32),
{
    let v = value as nat;
    let d4 = v / 256 / 256 / 256 / 256;
    let d8 = d4 / 256 / 256 / 256 / 256;
    let d12 = d8 / 256 / 256 / 256 / 256;
    let d16 = d12 / 256 / 256 / 256 / 256;
    assert(d4 <= 0xffff_ffff_ffff_ffff_ffff_ffff);
    assert(d8 <= 0xffff_ffff_ffff_ffff);
    assert(d12 <= 0xffff_ffff);
    assert(d16 == 0);
    assert(fits_in(d16, 0));
    assert(fits_in(d12, 4)) by {
        reveal_with_fuel(fits_in, 5);
    }
    assert(fits_in(d8, 8)) by {
        reveal_with_fuel(fits_in, 5);
    }
    assert(fits_in(d4, 12)) by {
        reveal_with_fuel(fits_in, 5);
    }
    assert(fits_in(v, 16)) by {
        reveal_with_fuel(fits_in, 5);
    }
    lemma_fits_in_more(v, 16, 32);
}

/// The number in the first bytes of a sequence is at most the number in all
/// of them.
pub proof fn lemma_be_value_prefix(bytes: Seq<u8>, count: int)
    requires
        0 <= count <= bytes.len(),
    ensures
        be_value(bytes.take(count)) <= be_value(bytes),
    decreases bytes.len(),
{
    if count == bytes.len() {
        assert(bytes.take(count) =~= bytes);
    } else {
        lemma_be_value_prefix(bytes.drop_last(), count);
        assert(bytes.drop_last().take(count) =~= bytes.take(count));
    }
}

/// The number in a word, where it fits 128 bits.
pub(crate) fn word_value(word: &[u8; 32]) -> (value: Option<u128>)
    ensures
        value == if be_value(word@) <= u128::MAX {
            Some(be_value(word@) as u128)
        } else {
            None
        },
{
    let mut value: u128 = 0;
    let mut next: usize = 0;
    while next < 32
        invariant
            next <= 32,
            value == be_value(word@.take(next as int)),
        decreases 32 - next,
    {
        proof {
            assert(word@.take(next + 1).drop_last() =~= word@.take(next as int));
            lemma_be_value_prefix(word@, next + 1);
        }
        if value > 0x00ff_ffff_ffff_ffff_ffff_ffff_ffff_ffff {
            return None;
        }
        value = value * 256 + word[next] as u128;
        next = next + 1;
    }
    proof {
        assert(word@.take(32) =~= word@);
    }
    Some(value)
}

/// The numbers in `words`, where each of them fits 128 bits.
pub open spec fn numbers_in(words: Seq<Seq<u8>>) -> Option<Seq<u128>> {
    if forall|i: int| 0 <= i < words.len() ==> be_value(#[trigger] words[i]) <= u128::MAX {
        Some(Seq::new(words.len(), |i: int| be_value(words[i]) as u128))
    } else {
        None
    }
}

/// The first `count` words of `data`, where `data` holds that many.
pub open spec fn leading_words(count: nat, data: Seq<u8>) -> Option<Seq<Seq<u8>>> {
    if data.len() < 32 * count {
        None
    } else {
        Some(Seq::new(count, |i: int| data.subrange(32 * i, 32 * i + 32)))
    }
}

/// The numbers in the first `count` words of `data`, where `data` holds that
/// many words and each number fits 128 bits.
pub open spec fn leading_numbers(count: nat, data: Seq<u8>) -> Option<Seq<u128>> {
    match leading_words(count, data) {
        Some(words) => numbers_in(words),
        None => None,
    }
}

/// A list of numbers decodes to the leading words of the data.
pub proof fn lemma_decoded_numbers(kinds: Seq<AbiKind>, data: Seq<u8>)
    requires
        forall|i: int| 0 <= i < kinds.len() ==> kinds[i] is Uint,
    ensures
        decoded(kinds, data) is Some <==> leading_words(kinds.len(), data) is Some,
        decoded(kinds, data) matches Some(args) ==> {
            &&& args.len() == kinds.len()
            &&& forall|i: int|
                0 <= i < kinds.len() ==> #[trigger] args[i] == seq![
                    leading_words(kinds.len(), data).unwrap()[i],
                ]
        },
{
    let count = kinds.len();
    if data.len() >= 32 * count {
        assert forall|i: int| 0 <= i < count implies (#[trigger] arg_at(kinds[i], data, 32 * i))
            is Some by {
            assert(kinds[i] is Uint);
        }
        let args = decoded(kinds, data).unwrap();
        assert forall|i: int| 0 <= i < count implies #[trigger] args[i] == seq![
            leading_words(count, data).unwrap()[i],
        ] by {
            assert(kinds[i] is Uint);
        }
    } else {
        let last = count - 1;
        assert(kinds[last] is Uint);
        assert(arg_at(kinds[last], data, 32 * last) is None);
    }
}

/// Reads the number out of every word of a list.
pub(crate) fn words_to_numbers(words: &Vec<[u8; 32]>) -> (numbers: Option<Vec<u128>>)
    ensures
        match numbers {
            Some(found) => numbers_in(words_view(words@)) == Some(found@),
            None => numbers_in(words_view(words@)) is None,
        },
{
    let mut numbers: Vec<u128> = Vec::new();
    let mut next: usize = 0;
    while next < words.len()
        invariant
            next <= words.len(),
            numbers@.len() == next,
            forall|i: int|
                0 <= i < next ==> be_value(#[trigger] words_view(words@)[i]) <= u128::MAX
                    && numbers@[i] == be_value(words_view(words@)[i]),
        decreases words.len() - next,
    {
        assert(words_view(words@)[next as int] == words@[next as int]@);
        match word_value(&words[next]) {
            Some(number) => {
                numbers.push(number);
            },
            None => {
                return None;
            },
        }
        next = next + 1;
    }
    assert(numbers@ =~= numbers_in(words_view(words@)).unwrap());
    Some(numbers)
}

/// Decodes a list of plain numbers from the front of `data`.
pub(crate) fn decode_numbers(kinds: &[AbiKind], data: &[u8]) -> (numbers: Option<Vec<u128>>)
    requires
        forall|i: int| 0 <= i < kinds@.len() ==> kinds@[i] is Uint,
    ensures
        match numbers {
            Some(found) => leading_numbers(kinds@.len(), data@) == Some(found@),
            None => leading_numbers(kinds@.len(), data@) is None,
        },
{
    proof {
        lemma_decoded_numbers(kinds@, data@);
    }
    let args = match abi_decode(kinds, data) {
        Some(a) => a,
        None => {
            return None;
        },
    };
    let ghost words = leading_words(kinds@.len(), data@).unwrap();
    let mut numbers: Vec<u128> = Vec::new();
    let mut next: usize = 0;
    while next < args.len()
        invariant
            next <= args.len(),
            args@.len() == kinds@.len(),
            words.len() == kinds@.len(),
            leading_words(kinds@.len(), data@) == Some(words),
            decoded(kinds@, data@) == Some(args_view(args@)),
            forall|i: int|
                0 <= i < kinds@.len() ==> #[trigger] args_view(args@)[i] == seq![words[i]],
            numbers@.len() == next,
            forall|i: int|
                0 <= i < next ==> be_value(#[trigger] words[i]) <= u128::MAX && numbers@[i]
                    == be_value(words[i]),
        decreases args.len() - next,
    {
        let ghost here = args_view(args@)[next as int];
        assert(here == seq![words[next as int]]);
        assert(here == words_view(args@[next as int]@));
        assert(here.len() == 1);
        assert(here[0] == args@[next as int]@[0]@);
        let arg = &args[next];
        match word_value(&arg[0]) {
            Some(number) => {
                numbers.push(number);
            },
            None => {
                return None;
            },
        }
        next = next + 1;
    }
    assert(numbers@ =~= numbers_in(words).unwrap());
    Some(numbers)
}

/// Reply code: an argument lies outside its domain.
pub const ERR_INVALID_INPUT: u32 = 1;

/// Reply code: a result does not fit.
pub const ERR_OVERFLOW: u32 = 2;

/// Reply code: a subtraction went below zero.
pub const ERR_UNDERFLOW: u32 = 3;

/// Reply code: a divisor was zero.
pub const ERR_DIVISION_BY_ZERO: u32 = 4;

/// Reply code: the call names no known operation.
pub const ERR_UNKNOWN_SELECTOR: u32 = 5;

/// Reply code: the payload is too short or holds a number too large for its
/// field.
pub const ERR_DECODE_FAILED: u32 = 6;

/// What [`decode_optimizer_input`] returns: the eight numbers at the front of
/// the payload, in field order, where the payload holds eight words and each
/// number fits its field.
pub open spec fn decode_optimizer_input_spec(input: Seq<u8>) -> Option<OptimizerInput> {
    match leading_numbers(8, input) {
        Some(n) => if n[1] > u32::MAX || n[2] > u32::MAX || n[3] > u32::MAX || n[4] > u32::MAX
            || n[5] > u32::MAX || n[6] > u32::MAX || n[7] > u32::MAX {
            None
        } else {
            Some(
                OptimizerInput {
                    principal: n[0],
                    hydradx_apy_bps: n[1] as u32,
                    interlay_apy_bps: n[2] as u32,
                    hydradx_fee_bps: n[3] as u32,
                    interlay_fee_bps: n[4] as u32,
                    hydradx_risk_score: n[5] as u32,
                    interlay_risk_score: n[6] as u32,
                    projection_periods: n[7] as u32,
                },
            )
        },
        None => None,
    }
}

/// The values a recommendation is sent as, in field order.
pub open spec fn recommendation_values(rec: YieldRecommendation) -> Seq<AbiValue> {
    seq![
        AbiValue::Bool(rec.use_hydradx),
        AbiValue::Bool(rec.use_interlay),
        AbiValue::Uint(rec.hydradx_allocation_pct as u128),
        AbiValue::Uint(rec.interlay_allocation_pct as u128),
        AbiValue::Uint(rec.projected_net_apy_bps as u128),
        AbiValue::Uint(rec.expected_yield_dot),
    ]
}

/// The reply to a failed call: a false flag, then the error code.
pub open spec fn error_reply(error_code: u32) -> Seq<u8> {
    encoded(seq![AbiValue::Bool(false), AbiValue::Uint(error_code as u128)])
}

/// Whether `reply` has the form every endpoint answers in: a true flag
/// followed by at least one result word, or a false flag followed by one of
/// the six error codes.
pub open spec fn well_formed_reply(reply: Seq<u8>) -> bool {
    ||| {
        &&& reply.len() >= 64
        &&& reply.len() % 32 == 0
        &&& reply.subrange(0, 32) == word_of(AbiValue::Bool(true))
    }
    ||| {
        &&& reply.len() == 64
        &&& reply.subrange(0, 32) == word_of(AbiValue::Bool(false))
        &&& 1 <= be_value(reply.subrange(32, 64)) <= 6
    }
}

/// A number as a 32-bit field, where it fits.
pub(crate) fn narrow_to_u32(number: u128) -> (field: Option<u32>)
    ensures
        field == if number <= u32::MAX {
            Some(number as u32)
        } else {
            None
        },
{
    if number > u32::MAX as u128 {
        None
    } else {
        Some(number as u32)
    }
}

/// A number as a 64-bit field, where it fits.
pub(crate) fn narrow_to_u64(number: u128) -> (field: Option<u64>)
    ensures
        field == if number <= u64::MAX {
            Some(number as u64)
        } else {
            None
        },
{
    if number > u64::MAX as u128 {
        None
    } else {
        Some(number as u64)
    }
}

/// Decodes the eight words of a request.
///
/// Returns `None` where the payload is shorter than eight words or a number
/// does not fit its field; bytes after the eighth word are ignored.
pub fn decode_optimizer_input(input: &[u8]) -> (request: Option<OptimizerInput>)
    ensures
        request == decode_optimizer_input_spec(input@),
{
    let kinds: [AbiKind; 8] = [
        AbiKind::Uint(128),
        AbiKind::Uint(32),
        AbiKind::Uint(32),
        AbiKind::Uint(32),
        AbiKind::Uint(32),
        AbiKind::Uint(32),
        AbiKind::Uint(32),
        AbiKind::Uint(32),
    ];
    let numbers = match decode_numbers(&kinds, input) {
        Some(n) => n,
        None => {
            return None;
        },
    };
    if numbers.len() != 8 {
        return None;
    }
    let hydradx_apy_bps = match narrow_to_u32(numbers[1]) {
        Some(v) => v,
        None => {
            return None;
        },
    };
    let interlay_apy_bps = match narrow_to_u32(numbers[2]) {
        Some(v) => v,
        None => {
            return None;
        },
    };
    let hydradx_fee_bps = match narrow_to_u32(numbers[3]) {
        Some(v) => v,
        None => {
            return None;
        },
    };
    let interlay_fee_bps = match narrow_to_u32(numbers[4]) {
        Some(v) => v,
        None => {
            return None;
        },
    };
    let hydradx_risk_score = match narrow_to_u32(numbers[5]) {
        Some(v) => v,
        None => {
            return None;
        },
    };
    let interlay_risk_score = match narrow_to_u32(numbers[6]) {
        Some(v) => v,
        None => {
            return None;
        },
    };
    let projection_periods = match narrow_to_u32(numbers[7]) {
        Some(v) => v,
        None => {
            return None;
        },
    };
    Some(
        OptimizerInput {
            principal: numbers[0],
            hydradx_apy_bps,
            interlay_apy_bps,
            hydradx_fee_bps,
            interlay_fee_bps,
            hydradx_risk_score,
            interlay_risk_score,
            projection_periods,
        },
    )
}

/// Encodes a recommendation as six words, in field order.
pub fn encode_yield_recommendation(rec: &YieldRecommendation) -> (bytes: Vec<u8>)
    ensures
        bytes@ == encoded(recommendation_values(*rec)),
        bytes@.len() == 192,
{
    proof {
        lemma_recommendation_shape(*rec);
    }
    let values = vec![
        AbiValue::Bool(rec.use_hydradx),
        AbiValue::Bool(rec.use_interlay),
        AbiValue::Uint(rec.hydradx_allocation_pct as u128),
        AbiValue::Uint(rec.interlay_allocation_pct as u128),
        AbiValue::Uint(rec.projected_net_apy_bps as u128),
        AbiValue::Uint(rec.expected_yield_dot),
    ];
    assert(values@ =~= recommendation_values(*rec));
    abi_encode(&values)
}

/// Encodes the reply to a failed call: a false flag, then `error_code`.
pub fn encode_error(error_code: u32) -> (bytes: Vec<u8>)
    ensures
        bytes@ == error_reply(error_code),
        bytes@.len() == 64,
        bytes@.subrange(0, 32) == Seq::new(32, |i: int| 0u8),
        be_value(bytes@.subrange(32, 64)) == error_code,
{
    proof {
        lemma_error_reply_shape(error_code);
    }
    let values = vec![AbiValue::Bool(false), AbiValue::Uint(error_code as u128)];
    assert(values@ =~= seq![AbiValue::Bool(false), AbiValue::Uint(error_code as u128)]);
    abi_encode(&values)
}

/// Whether `input` begins with the four bytes of `selector`.
pub(crate) fn has_selector(input: &[u8], selector: &[u8; 4]) -> (same: bool)
    requires
        input@.len() >= 4,
    ensures
        same == (input@.subrange(0, 4) == selector@),
{
    let same = input[0] == selector[0] && input[1] == selector[1] && input[2] == selector[2]
        && input[3] == selector[3];
    proof {
        let head = input@.subrange(0, 4);
        if same {
            assert(head =~= selector@);
        } else {
            assert(head[0] != selector@[0] || head[1] != selector@[1] || head[2] != selector@[2]
                || head[3] != selector@[3]);
        }
    }
    same
}

} // verus!
