use ethabi::{encode, Token};
use pvm_modules::abi::encode_error;
use pvm_modules::math_lib::PRECISION;
use pvm_modules::math_lib::MathError;
use pvm_modules::precompiles::math_lib_precompile::{
    call, math_error_code, SEL_ANNUALIZE, SEL_COMPOUND, SEL_FEE_ADJUSTED, SEL_OPTIMAL_SPLIT,
    SEL_WEIGHTED_AVG,
};

fn build_input(selector: [u8; 4], args: Vec<u8>) -> Vec<u8> {
    let mut input = selector.to_vec();
    input.extend(args);
    input
}

fn uints(values: &[u128]) -> Token {
    Token::Array(values.iter().map(|v| Token::Uint((*v).into())).collect())
}

fn success(values: &[u128]) -> Vec<u8> {
    let mut tokens = vec![Token::Bool(true)];
    tokens.extend(values.iter().map(|v| Token::Uint((*v).into())));
    encode(&tokens)
}

/// compound dispatch — happy path round-trip
#[test]
fn test_dispatch_compound_happy_path() {
    let args = encode(&[
        Token::Uint((1_000u128 * PRECISION).into()),
        Token::Uint(1_000u32.into()),
        Token::Uint(1u32.into()),
    ]);
    let result = call(&build_input(SEL_COMPOUND, args));
    // First word = true (success)
    assert_eq!(result[31], 1u8, "Success flag must be true");
    // Second word must be > principal (yield was added)
    // (1000 * PRECISION) * 11000 / 10000 = 1100 * PRECISION
    let expected = 1_100u128 * PRECISION;
    let returned = u128::from_be_bytes(result[48..64].try_into().unwrap());
    assert_eq!(returned, expected);
}

/// Unknown selector must return error, not panic
#[test]
fn test_unknown_selector_returns_error() {
    let input = build_input([0xde, 0xad, 0xbe, 0xef], vec![]);
    let result = call(&input);
    // First word = false (failure)
    assert_eq!(result[31], 0u8, "Unknown selector must return failure");
}

/// Input too short (less than 4 bytes) must return error
#[test]
fn test_input_too_short_returns_error() {
    let result = call(&[0x01, 0x02]);
    assert_eq!(result[31], 0u8, "Short input must return failure");
}

/// annualize dispatch — 1 year should return same rate
#[test]
fn test_dispatch_annualize_one_year() {
    let args = encode(&[Token::Uint(500u32.into()), Token::Uint(31_536_000u64.into())]);
    let result = call(&build_input(SEL_ANNUALIZE, args));
    assert_eq!(result[31], 1u8, "Annualize must succeed");
}

/// optimalSplit dispatch — equal inputs should give 50/50
#[test]
fn test_dispatch_optimal_split_equal() {
    let args = encode(&[
        Token::Uint(1_000u32.into()),
        Token::Uint(1_000u32.into()),
        Token::Uint(1_000u32.into()),
        Token::Uint(1_000u32.into()),
    ]);
    let result = call(&build_input(SEL_OPTIMAL_SPLIT, args));
    assert_eq!(result[31], 1u8, "OptimalSplit must succeed");
    // pct_a is in second word (bytes 32–63)
    let pct_a = result[63] as u64;
    // pct_b is in third word (bytes 64–95)
    let pct_b = result[95] as u64;
    assert_eq!(pct_a + pct_b, 100);
}

/// The exact reply to each malformed call.
#[test]
fn test_malformed_calls_exact_replies() {
    assert_eq!(call(&[]), encode_error(6));
    assert_eq!(call(&[0x1a, 0x2b, 0x3c]), encode_error(6));
    assert_eq!(call(&[0xde, 0xad, 0xbe, 0xef]), encode_error(5));
    assert_eq!(call(&[0x1a, 0x2b, 0x3c, 0x4e]), encode_error(5));
    // a known selector without arguments
    assert_eq!(call(&SEL_COMPOUND), encode_error(6));
    assert_eq!(call(&SEL_ANNUALIZE), encode_error(6));
    assert_eq!(call(&SEL_FEE_ADJUSTED), encode_error(6));
    assert_eq!(call(&SEL_WEIGHTED_AVG), encode_error(6));
    assert_eq!(call(&SEL_OPTIMAL_SPLIT), encode_error(6));
}

/// The exact reply of every operation on a good call.
#[test]
fn test_each_operation_exact_reply() {
    let args = encode(&[
        Token::Uint((10_000u128 * PRECISION).into()),
        Token::Uint(1_000u32.into()),
        Token::Uint(1u32.into()),
    ]);
    assert_eq!(call(&build_input(SEL_COMPOUND, args)), success(&[11_000 * PRECISION]));

    let args = encode(&[Token::Uint(400u32.into()), Token::Uint(15_768_000u64.into())]);
    assert_eq!(call(&build_input(SEL_ANNUALIZE, args)), success(&[800]));

    let args = encode(&[Token::Uint((200u128 * PRECISION).into()), Token::Uint(5_000u32.into())]);
    assert_eq!(call(&build_input(SEL_FEE_ADJUSTED, args)), success(&[100 * PRECISION]));

    let args = encode(&[uints(&[1_200, 900]), uints(&[60, 40])]);
    assert_eq!(call(&build_input(SEL_WEIGHTED_AVG, args)), success(&[1_080]));

    let args = encode(&[
        Token::Uint(2_000u32.into()),
        Token::Uint(1_000u32.into()),
        Token::Uint(0u32.into()),
        Token::Uint(0u32.into()),
    ]);
    assert_eq!(call(&build_input(SEL_OPTIMAL_SPLIT, args)), success(&[66, 34]));
}

/// Each arithmetic failure is reported under its own code.
#[test]
fn test_error_codes_of_failed_operations() {
    // fee above 100%: invalid input, code 1
    let args = encode(&[Token::Uint(5u32.into()), Token::Uint(10_001u32.into())]);
    assert_eq!(call(&build_input(SEL_FEE_ADJUSTED, args)), encode_error(1));
    // risk above the maximum: invalid input, code 1
    let args = encode(&[
        Token::Uint(1u32.into()),
        Token::Uint(1u32.into()),
        Token::Uint(10_001u32.into()),
        Token::Uint(0u32.into()),
    ]);
    assert_eq!(call(&build_input(SEL_OPTIMAL_SPLIT, args)), encode_error(1));
    // the first product does not fit: overflow, code 2
    let args = encode(&[
        Token::Uint(u128::MAX.into()),
        Token::Uint(1u32.into()),
        Token::Uint(1u32.into()),
    ]);
    assert_eq!(call(&build_input(SEL_COMPOUND, args)), encode_error(2));
    // a window of no seconds: division by zero, code 4
    let args = encode(&[Token::Uint(500u32.into()), Token::Uint(0u64.into())]);
    assert_eq!(call(&build_input(SEL_ANNUALIZE, args)), encode_error(4));
    // weights that sum to zero: division by zero, code 4
    let args = encode(&[uints(&[1, 2]), uints(&[0, 0])]);
    assert_eq!(call(&build_input(SEL_WEIGHTED_AVG, args)), encode_error(4));
    // arrays of different lengths: invalid input, code 1
    let args = encode(&[uints(&[1, 2]), uints(&[1])]);
    assert_eq!(call(&build_input(SEL_WEIGHTED_AVG, args)), encode_error(1));
    // empty arrays: invalid input, code 1
    let args = encode(&[uints(&[]), uints(&[])]);
    assert_eq!(call(&build_input(SEL_WEIGHTED_AVG, args)), encode_error(1));
}

/// A number too wide for its argument is a decoding failure, never a fault.
#[test]
fn test_arguments_out_of_range_are_rejected() {
    let wide = Token::Uint(ethabi::ethereum_types::U256::MAX);
    let over_u32 = Token::Uint((u32::MAX as u64 + 1).into());
    let over_u64 = Token::Uint((u64::MAX as u128 + 1).into());

    let args = encode(&[wide.clone(), Token::Uint(1u32.into()), Token::Uint(1u32.into())]);
    assert_eq!(call(&build_input(SEL_COMPOUND, args)), encode_error(6));
    let args = encode(&[Token::Uint(1u32.into()), over_u32.clone(), Token::Uint(1u32.into())]);
    assert_eq!(call(&build_input(SEL_COMPOUND, args)), encode_error(6));
    let args = encode(&[Token::Uint(1u32.into()), Token::Uint(1u32.into()), over_u32.clone()]);
    assert_eq!(call(&build_input(SEL_COMPOUND, args)), encode_error(6));

    let args = encode(&[over_u32.clone(), Token::Uint(1u32.into())]);
    assert_eq!(call(&build_input(SEL_ANNUALIZE, args)), encode_error(6));
    let args = encode(&[Token::Uint(1u32.into()), over_u64]);
    assert_eq!(call(&build_input(SEL_ANNUALIZE, args)), encode_error(6));
    let args = encode(&[Token::Uint(7u32.into()), Token::Uint(u64::MAX.into())]);
    assert_eq!(call(&build_input(SEL_ANNUALIZE, args)), success(&[0]));

    let args = encode(&[wide.clone(), Token::Uint(1u32.into())]);
    assert_eq!(call(&build_input(SEL_FEE_ADJUSTED, args)), encode_error(6));
    let args = encode(&[Token::Uint(1u32.into()), over_u32.clone()]);
    assert_eq!(call(&build_input(SEL_FEE_ADJUSTED, args)), encode_error(6));

    for position in 0..4 {
        let mut tokens = vec![Token::Uint(1u32.into()); 4];
        tokens[position] = over_u32.clone();
        let args = encode(&tokens);
        assert_eq!(call(&build_input(SEL_OPTIMAL_SPLIT, args)), encode_error(6));
    }

    let args =
        encode(&[Token::Array(vec![Token::Uint(1u32.into()), wide.clone()]), uints(&[1, 1])]);
    assert_eq!(call(&build_input(SEL_WEIGHTED_AVG, args)), encode_error(6));
    let args = encode(&[uints(&[1, 1]), Token::Array(vec![wide, Token::Uint(1u32.into())])]);
    assert_eq!(call(&build_input(SEL_WEIGHTED_AVG, args)), encode_error(6));
}

/// Arrays are found through the positions in the head words.
#[test]
fn test_weighted_average_array_layout() {
    fn word(value: u128) -> Vec<u8> {
        let mut bytes = vec![0u8; 16];
        bytes.extend_from_slice(&value.to_be_bytes());
        bytes
    }
    // weights first in the payload, values after them, a gap in between
    let mut args = Vec::new();
    args.extend(word(0xc0)); // position of the values
    args.extend(word(0x40)); // position of the weights
    args.extend(word(2)); // weights: count
    args.extend(word(1));
    args.extend(word(3));
    args.extend(word(0xdead)); // not referred to
    args.extend(word(2)); // values: count
    args.extend(word(1_000));
    args.extend(word(2_000));
    assert_eq!(call(&build_input(SEL_WEIGHTED_AVG, args.clone())), success(&[1_750]));

    // both arguments may refer to the same array
    let mut shared = Vec::new();
    shared.extend(word(0x40));
    shared.extend(word(0x40));
    shared.extend(word(3));
    shared.extend(word(2));
    shared.extend(word(4));
    shared.extend(word(6));
    // (4 + 16 + 36) / 12 = 4
    assert_eq!(call(&build_input(SEL_WEIGHTED_AVG, shared)), success(&[4]));

    // a count that runs past the payload
    let mut short = args.clone();
    short.truncate(short.len() - 1);
    assert_eq!(call(&build_input(SEL_WEIGHTED_AVG, short)), encode_error(6));

    // a position outside the payload
    let mut outside = args.clone();
    outside[31] = 0xff;
    outside[30] = 0xff;
    assert_eq!(call(&build_input(SEL_WEIGHTED_AVG, outside)), encode_error(6));

    // a position of more than 32 bits
    let mut wide = args.clone();
    wide[27] = 1;
    assert_eq!(call(&build_input(SEL_WEIGHTED_AVG, wide)), encode_error(6));

    // a count of more than 32 bits
    let mut wide_count = args;
    wide_count[64 + 27] = 1;
    assert_eq!(call(&build_input(SEL_WEIGHTED_AVG, wide_count)), encode_error(6));
}

/// Bytes after the last argument do not change the reply.
#[test]
fn test_trailing_bytes_are_ignored() {
    let mut args = encode(&[Token::Uint(400u32.into()), Token::Uint(15_768_000u64.into())]);
    args.extend_from_slice(&[0xab; 7]);
    assert_eq!(call(&build_input(SEL_ANNUALIZE, args)), success(&[800]));
}

/// The code of every arithmetic failure.
#[test]
fn test_math_error_codes() {
    assert_eq!(math_error_code(&MathError::InvalidInput), 1);
    assert_eq!(math_error_code(&MathError::Overflow), 2);
    assert_eq!(math_error_code(&MathError::Underflow), 3);
    assert_eq!(math_error_code(&MathError::DivisionByZero), 4);
}
