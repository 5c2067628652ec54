use cera_parse::literals::{FloatParseError, FloatValue, IntParseError, StringEscapeError};
use cera_parse::parsing::{parse, Parsable, ParsingError};
use cera_parse::src_token::{Literal, SpecialChar, Token, TokenParseError};
use cera_parse::text_region::{TextPosition, TextSpan};
use num_bigint::{BigInt, BigUint};

#[test]
fn parsing() {
    assert_eq!(
        <Literal as Parsable>::try_parse(b"1234"),
        Ok((Some(Literal::Int(BigUint::from(1234usize))), 4))
    );
    assert_eq!(
        <Literal as Parsable>::try_parse(b"123.4"),
        Ok((
            Some(Literal::Float(FloatValue {
                value: 1234usize.into(),
                exponent: (-1isize).into(),
            })),
            5
        ))
    );
    assert_eq!(
        <Literal as Parsable>::try_parse(b"12.3e4"),
        Ok((
            Some(Literal::Float(FloatValue {
                value: 123usize.into(),
                exponent: (3isize).into(),
            })),
            6
        ))
    );
    assert_eq!(
        <Literal as Parsable>::try_parse(b"\"test\""),
        Ok((Some(Literal::String(b"test".to_vec())), 6))
    );
    assert_eq!(
        <Literal as Parsable>::try_parse(b"\"test\\\"\""),
        Ok((Some(Literal::String(b"test\"".to_vec())), 8))
    );
}

#[test]
fn int_token_spans_four_bytes() {
    assert_eq!(
        <Token as Parsable>::try_parse(b"1234"),
        Ok((Some(Token::Literal(Literal::Int(BigUint::from(1234usize)))), 4))
    );
}

#[test]
fn string_token_spans_six_bytes() {
    assert_eq!(
        <Token as Parsable>::try_parse(b"\"test\""),
        Ok((Some(Token::Literal(Literal::String(b"test".to_vec()))), 6))
    );
}

#[test]
fn identifier_token() {
    let (tok, len) = <Token as Parsable>::try_parse(b"foo1+bar").unwrap();
    assert_eq!(len, 4);
    match tok.unwrap() {
        Token::Identifier(id) => assert_eq!(id.name().as_slice(), b"foo1"),
        other => panic!("expected an identifier, got {:?}", other),
    }
}

#[test]
fn brackets_decode_to_distinct_tokens() {
    let open = <Token as Parsable>::try_parse(b"[").unwrap().0.unwrap();
    let close = <Token as Parsable>::try_parse(b"]").unwrap().0.unwrap();
    assert_eq!(open, Token::SpecialChar(SpecialChar::OpenBracket));
    assert_eq!(close, Token::SpecialChar(SpecialChar::CloseBracket));
    assert_ne!(open, close);
}

#[test]
fn driver_records_tokens_with_spans() {
    let text = b"foo 123 + // rest\nbar";
    let (tokens, spans) = parse::<Token>(text).unwrap();
    assert_eq!(tokens.len(), 4);
    assert_eq!(
        spans,
        vec![
            TextSpan { len: 3, idx: 0 },
            TextSpan { len: 3, idx: 4 },
            TextSpan { len: 1, idx: 8 },
            TextSpan { len: 3, idx: 18 },
        ]
    );
    assert_eq!(tokens[1], Token::Literal(Literal::Int(BigUint::from(123usize))));
    assert_eq!(tokens[2], Token::SpecialChar(SpecialChar::Plus));
}

#[test]
fn reparsing_a_span_substring_reproduces_the_token() {
    let text = b" 12.5e2 ( name ";
    let (tokens, spans) = parse::<Token>(text).unwrap();
    assert_eq!(tokens.len(), 3);
    for (tok, span) in tokens.iter().zip(spans.iter()) {
        let sub = &text[span.idx..span.idx + span.len];
        let (again, len) = <Token as Parsable>::try_parse(sub).unwrap();
        assert_eq!(again.as_ref(), Some(tok));
        assert_eq!(len, span.len);
    }
}

#[test]
fn whitespace_and_comments_parse_to_nothing() {
    let (tokens, spans) = parse::<Token>(b"  // line\n\t /* block */ \r\n").unwrap();
    assert!(tokens.is_empty());
    assert!(spans.is_empty());
    let (tokens, spans) = parse::<Token>(b"/* unterminated comment").unwrap();
    assert!(tokens.is_empty());
    assert!(spans.is_empty());
}

#[test]
fn zero_length_step_is_rejected() {
    let res = parse::<Literal>(b"abc");
    assert!(matches!(
        res,
        Err(ParsingError::ZeroLenSkip(TextPosition { idx: 0 }))
    ));
}

#[test]
fn driver_rebases_token_errors() {
    let res = parse::<Token>(b"  \x01");
    match res {
        Err(ParsingError::ParsableError(TokenParseError::NoMatch(pos))) => {
            assert_eq!(pos, TextPosition { idx: 2 });
        }
        other => panic!("expected a rebased no-match, got {:?}", other),
    }
}

#[test]
fn empty_input_yields_empty_output() {
    let (tokens, spans) = parse::<Token>(b"").unwrap();
    assert!(tokens.is_empty());
    assert!(spans.is_empty());
}

#[test]
fn empty_text_is_no_token() {
    assert_eq!(
        <Token as Parsable>::try_parse(b""),
        Err(TokenParseError::EmptyStr)
    );
}

#[test]
fn nested_errors_surface_through_tokens() {
    // The escape error is local to the string body and rebased past the
    // opening quote.
    assert_eq!(
        <Token as Parsable>::try_parse(b"\"\\q\""),
        Err(TokenParseError::StringEscapeError(
            StringEscapeError::InvalidEscapedChar(TextSpan { len: 2, idx: 1 })
        ))
    );
    // The numeral scanner munches digits and underscores only, so a `0b`
    // prefix stops at the `b` and the integer parser sees just the zero.
    assert_eq!(
        <Token as Parsable>::try_parse(b"0b2"),
        Ok((Some(Token::Literal(Literal::Int(BigUint::from(0usize)))), 1))
    );
    assert_eq!(
        <Token as Parsable>::try_parse(b"1_+2"),
        Err(TokenParseError::IntParseError(IntParseError::InvalidChar(
            TextPosition { idx: 1 }
        )))
    );
    assert_eq!(
        <Token as Parsable>::try_parse(b"1.e5"),
        Err(TokenParseError::FloatParseError(
            FloatParseError::NumberParseError(IntParseError::ZeroLength(TextPosition { idx: 2 }))
        ))
    );
}

#[test]
fn unterminated_string_is_eof() {
    assert_eq!(
        <Token as Parsable>::try_parse(b"\"abc"),
        Err(TokenParseError::UnexpectedEOF)
    );
}

#[test]
fn dot_after_integer_is_not_consumed() {
    assert_eq!(
        <Literal as Parsable>::try_parse(b"1."),
        Ok((Some(Literal::Int(BigUint::from(1usize))), 1))
    );
    assert_eq!(
        <Literal as Parsable>::try_parse(b"1..2"),
        Ok((Some(Literal::Int(BigUint::from(1usize))), 1))
    );
    assert_eq!(
        <Literal as Parsable>::try_parse(b"1.5x"),
        Ok((
            Some(Literal::Float(FloatValue {
                value: 15usize.into(),
                exponent: (-1isize).into(),
            })),
            3
        ))
    );
}

#[test]
fn tokens_and_values_can_be_cloned() {
    let tok = Token::Literal(Literal::Float(FloatValue {
        value: BigUint::from(25usize),
        exponent: BigInt::from(-1isize),
    }));
    assert_eq!(tok.clone(), tok);
}
