use cera_parse::literals::{
    escape_str, parse_binary, parse_decimal, parse_float, parse_hexadecimal, parse_int,
    parse_octal, FloatParseError, FloatValue, IntParseError, StringEscapeError,
};
use cera_parse::text_region::{TextPosition, TextSpan};
use num_bigint::{BigInt, BigUint};

#[test]
fn decimal_is_identity_on_digit_strings() {
    assert_eq!(parse_decimal(b"1234"), Ok(BigUint::from(1234usize)));
    assert_eq!(parse_decimal(b"0"), Ok(BigUint::from(0usize)));
    assert_eq!(parse_decimal(b"56"), Ok(BigUint::from(56usize)));
}

#[test]
fn underscores_are_transparent() {
    assert_eq!(parse_decimal(b"1_234"), Ok(BigUint::from(1234usize)));
    assert_eq!(parse_hexadecimal(b"f_f"), Ok(BigUint::from(255usize)));
    assert_eq!(parse_binary(b"1_0_1"), Ok(BigUint::from(5usize)));
}

#[test]
fn edge_underscores_are_rejected_in_every_base() {
    for parser in [parse_binary, parse_octal, parse_decimal, parse_hexadecimal] {
        assert_eq!(
            parser(b"_1"),
            Err(IntParseError::InvalidChar(TextPosition { idx: 0 }))
        );
        assert_eq!(
            parser(b"1_"),
            Err(IntParseError::InvalidChar(TextPosition { idx: 1 }))
        );
        assert_eq!(
            parser(b""),
            Err(IntParseError::ZeroLength(TextPosition { idx: 0 }))
        );
    }
}

#[test]
fn base_prefixes_select_the_base() {
    assert_eq!(parse_int(b"0b101"), Ok(BigUint::from(5usize)));
    assert_eq!(parse_int(b"0o17"), Ok(BigUint::from(15usize)));
    assert_eq!(parse_int(b"0d10"), Ok(BigUint::from(10usize)));
    assert_eq!(parse_int(b"0x1F"), Ok(BigUint::from(31usize)));
    assert_eq!(parse_int(b"0"), Ok(BigUint::from(0usize)));
    assert_eq!(parse_int(b"42"), Ok(BigUint::from(42usize)));
}

#[test]
fn malformed_prefix_digit_is_rebased() {
    assert_eq!(
        parse_binary(b"2"),
        Err(IntParseError::InvalidChar(TextPosition { idx: 0 }))
    );
    assert_eq!(
        parse_int(b"0b2"),
        Err(IntParseError::InvalidChar(TextPosition { idx: 2 }))
    );
    assert_eq!(
        parse_int(b"0o18"),
        Err(IntParseError::InvalidChar(TextPosition { idx: 3 }))
    );
    assert_eq!(
        parse_int(b"0x"),
        Err(IntParseError::ZeroLength(TextPosition { idx: 2 }))
    );
}

#[test]
fn invalid_digits_are_reported_at_their_index() {
    assert_eq!(
        parse_decimal(b"12a4"),
        Err(IntParseError::InvalidChar(TextPosition { idx: 2 }))
    );
    assert_eq!(
        parse_octal(b"78"),
        Err(IntParseError::InvalidChar(TextPosition { idx: 1 }))
    );
}

#[test]
fn hex_letters_fold_case_insensitively() {
    assert_eq!(parse_hexadecimal(b"aB3"), Ok(BigUint::from(0xab3usize)));
    assert_eq!(parse_hexadecimal(b"FF"), Ok(BigUint::from(255usize)));
}

#[test]
fn float_mantissa_and_exponent_are_exact() {
    assert_eq!(
        parse_float(b"123.4"),
        Ok(FloatValue { value: 1234usize.into(), exponent: (-1isize).into() })
    );
    assert_eq!(
        parse_float(b"12.3e4"),
        Ok(FloatValue { value: 123usize.into(), exponent: (3isize).into() })
    );
    assert_eq!(
        parse_float(b"2.5e-3"),
        Ok(FloatValue { value: 25usize.into(), exponent: (-4isize).into() })
    );
    assert_eq!(
        parse_float(b"0.125e+1"),
        Ok(FloatValue { value: 125usize.into(), exponent: (-2isize).into() })
    );
    assert_eq!(
        parse_float(b"1_0.2_5"),
        Ok(FloatValue { value: 1025usize.into(), exponent: (-2isize).into() })
    );
}

#[test]
fn float_without_dot_is_rejected() {
    assert_eq!(
        parse_float(b"12"),
        Err(FloatParseError::NoDecimalDot(TextSpan { len: 2, idx: 0 }))
    );
}

#[test]
fn float_exponent_must_fit_a_machine_word() {
    assert_eq!(
        parse_float(b"1.0e99999999999999999999"),
        Err(FloatParseError::ExponentTooLarge(TextSpan { len: 20, idx: 4 }))
    );
    // With a sign the span still covers exactly the suffix digits.
    assert_eq!(
        parse_float(b"1.0e-99999999999999999999"),
        Err(FloatParseError::ExponentTooLarge(TextSpan { len: 20, idx: 5 }))
    );
}

#[test]
fn float_with_empty_fraction_is_rejected() {
    // The empty fraction's error is rebased to the fraction's position.
    assert_eq!(
        parse_float(b"1.e5"),
        Err(FloatParseError::NumberParseError(IntParseError::ZeroLength(TextPosition { idx: 2 })))
    );
}

#[test]
fn big_values_survive_parsing() {
    let big = parse_decimal(b"340282366920938463463374607431768211456").unwrap();
    assert_eq!(big, BigUint::from(1u8) << 128);
    let exact = parse_float(b"340282366920938463463374607431768211456.5").unwrap();
    assert_eq!(exact.value, (BigUint::from(1u8) << 128) * 10usize + 5usize);
    assert_eq!(exact.exponent, BigInt::from(-1isize));
}

#[test]
fn plain_text_escapes_to_itself() {
    assert_eq!(escape_str(b"test").unwrap(), b"test".to_vec());
    assert_eq!(escape_str(b"").unwrap(), b"".to_vec());
}

#[test]
fn escaped_quote_is_preserved() {
    assert_eq!(escape_str(b"test\\\"").unwrap(), b"test\"".to_vec());
}

#[test]
fn simple_escapes_decode() {
    assert_eq!(
        escape_str(b"a\\n\\r\\t\\\\\\0\\'\\\"z").unwrap(),
        b"a\n\r\t\\\0\'\"z".to_vec()
    );
}

#[test]
fn hex_escape_decodes_ascii() {
    assert_eq!(escape_str(b"\\x41!").unwrap(), b"A!".to_vec());
    assert_eq!(
        escape_str(b"\\x80"),
        Err(StringEscapeError::InvalidEscapedChar(TextSpan { len: 4, idx: 0 }))
    );
    assert_eq!(
        escape_str(b"a\\xZZ"),
        Err(StringEscapeError::InvalidEscapedChar(TextSpan { len: 4, idx: 1 }))
    );
}

#[test]
fn unicode_escape_decodes_scalar_values() {
    assert_eq!(escape_str(b"\\u0000E9!").unwrap(), "\u{e9}!".as_bytes().to_vec());
    assert_eq!(escape_str(b"\\u01F600").unwrap(), "\u{1f600}".as_bytes().to_vec());
    assert_eq!(
        escape_str(b"\\u00D800"),
        Err(StringEscapeError::InvalidEscapedChar(TextSpan { len: 8, idx: 0 }))
    );
    assert_eq!(
        escape_str(b"\\u00zz00"),
        Err(StringEscapeError::InvalidEscapedChar(TextSpan { len: 8, idx: 0 }))
    );
}

#[test]
fn lone_backslash_ends_the_string() {
    assert_eq!(escape_str(b"abc\\"), Err(StringEscapeError::UnexpectedStrEnd));
}

#[test]
fn unknown_escape_is_rejected() {
    assert_eq!(
        escape_str(b"\\q"),
        Err(StringEscapeError::InvalidEscapedChar(TextSpan { len: 2, idx: 0 }))
    );
}

#[test]
fn short_hex_escape_is_skipped() {
    assert_eq!(escape_str(b"\\xA").unwrap(), b"A".to_vec());
    assert_eq!(escape_str(b"\\u123").unwrap(), b"123".to_vec());
}

#[test]
fn escape_errors_can_be_rebased() {
    let mut err = StringEscapeError::InvalidEscapedChar(TextSpan { len: 2, idx: 3 });
    err.offset(5);
    assert_eq!(
        err,
        StringEscapeError::InvalidEscapedChar(TextSpan { len: 2, idx: 8 })
    );
    let mut err = IntParseError::InvalidChar(TextPosition { idx: 1 });
    err.offset(2);
    assert_eq!(err, IntParseError::InvalidChar(TextPosition { idx: 3 }));
    let mut err = FloatParseError::NumberParseError(IntParseError::ZeroLength(TextPosition {
        idx: 0,
    }));
    err.offset(7);
    assert_eq!(
        err,
        FloatParseError::NumberParseError(IntParseError::ZeroLength(TextPosition { idx: 7 }))
    );
}
