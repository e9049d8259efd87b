//! Tests for the byte-level tokenizer and the token stream.

use rusty_adams::tokenizer::{Stream, Token, TokenErrorKind};

#[test]
fn test_tokenizer_boundary() {
    // `-5 "hi\"there"` tokenizes to the integer -5 and the string `hi"there`.
    let data = b"-5 \"hi\\\"there\"".to_vec();
    let mut stream = Stream::new(data).expect("tokenize");
    assert_eq!(stream.next_int().expect("int"), -5);
    assert_eq!(stream.next_str().expect("str"), b"hi\"there".to_vec());
    assert!(stream.done());
}

#[test]
fn test_escape_appends_verbatim() {
    let data = b"\"a\\\\b\" ".to_vec();
    let mut stream = Stream::new(data).expect("tokenize");
    assert_eq!(stream.next_str().expect("str"), b"a\\b".to_vec());
}

#[test]
fn test_string_with_newline() {
    let data = b"\"two\nlines\"".to_vec();
    let mut stream = Stream::new(data).expect("tokenize");
    assert_eq!(stream.next_str().expect("str"), b"two\nlines".to_vec());
}

#[test]
fn test_token_locations() {
    let data = b"5 \n  7 \n\"x\"".to_vec();
    let mut stream = Stream::new(data).expect("tokenize");
    match stream.next_token() {
        Some(Token::Int(v, loc)) => {
            assert_eq!(v, 5);
            assert_eq!(loc.line, 1);
            assert_eq!(loc.col, 1);
        },
        other => panic!("wrong token: {:?}", other),
    }
    match stream.next_token() {
        Some(Token::Int(v, loc)) => {
            assert_eq!(v, 7);
            assert_eq!(loc.line, 2);
            assert_eq!(loc.col, 3);
        },
        other => panic!("wrong token: {:?}", other),
    }
    match stream.next_token() {
        Some(Token::Str(s, loc)) => {
            assert_eq!(s, b"x".to_vec());
            assert_eq!(loc.line, 3);
            assert_eq!(loc.col, 1);
        },
        other => panic!("wrong token: {:?}", other),
    }
    assert!(stream.next_token().is_none());
}

#[test]
fn test_unterminated_string_error() {
    // An unterminated quoted string is an error naming its line and column.
    let err = Stream::new(b"5 \"abc".to_vec()).expect_err("must fail");
    assert_eq!(err.kind, TokenErrorKind::UnterminatedString);
    assert_eq!(err.loc.line, 1);
    assert_eq!(err.loc.col, 3);
}

#[test]
fn test_unexpected_char_error() {
    // A non-digit character outside a string is an error naming its line
    // and column.
    let err = Stream::new(b"5 x".to_vec()).expect_err("must fail");
    assert_eq!(err.kind, TokenErrorKind::UnexpectedChar);
    assert_eq!(err.loc.line, 1);
    assert_eq!(err.loc.col, 3);
}

#[test]
fn test_unexpected_char_on_later_line() {
    let err = Stream::new(b"5 \n 6 \n ?".to_vec()).expect_err("must fail");
    assert_eq!(err.kind, TokenErrorKind::UnexpectedChar);
    assert_eq!(err.loc.line, 3);
    assert_eq!(err.loc.col, 2);
}

#[test]
fn test_unexpected_char_in_int_error() {
    let err = Stream::new(b"-a".to_vec()).expect_err("must fail");
    assert_eq!(err.kind, TokenErrorKind::UnexpectedCharInInt);
    assert_eq!(err.loc.line, 1);
    assert_eq!(err.loc.col, 2);

    let err = Stream::new(b"12x ".to_vec()).expect_err("must fail");
    assert_eq!(err.kind, TokenErrorKind::UnexpectedCharInInt);
    assert_eq!(err.loc.line, 1);
    assert_eq!(err.loc.col, 3);
}

#[test]
fn test_malformed_int_error() {
    let err = Stream::new(b"99999999999 ".to_vec()).expect_err("must fail");
    assert_eq!(err.kind, TokenErrorKind::MalformedInt);
    assert_eq!(err.loc.line, 1);
    assert_eq!(err.loc.col, 12);

    let err = Stream::new(b"2147483648 ".to_vec()).expect_err("must fail");
    assert_eq!(err.kind, TokenErrorKind::MalformedInt);

    let err = Stream::new(b"-2147483649 ".to_vec()).expect_err("must fail");
    assert_eq!(err.kind, TokenErrorKind::MalformedInt);
}

#[test]
fn test_int_boundaries() {
    let mut stream = Stream::new(b"2147483647 -2147483648 ".to_vec()).expect("tokenize");
    assert_eq!(stream.next_int().expect("max"), i32::MAX);
    assert_eq!(stream.next_int().expect("min"), i32::MIN);
    assert!(stream.done());
}

#[test]
fn test_unterminated_int_error() {
    let err = Stream::new(b"123".to_vec()).expect_err("must fail");
    assert_eq!(err.kind, TokenErrorKind::UnterminatedInt);
    assert_eq!(err.loc.line, 1);
    assert_eq!(err.loc.col, 1);

    let err = Stream::new(b" -".to_vec()).expect_err("must fail");
    assert_eq!(err.kind, TokenErrorKind::UnterminatedInt);
    assert_eq!(err.loc.col, 2);
}

#[test]
fn test_next_int_type_mismatch() {
    let mut stream = Stream::new(b"\"s\" ".to_vec()).expect("tokenize");
    let err = stream.next_int().expect_err("must fail");
    assert_eq!(err.kind, TokenErrorKind::ExpectedInt);
    assert_eq!(err.loc.line, 1);
    assert_eq!(err.loc.col, 1);
    // The mismatched token is consumed: a failed pull is not retryable.
    assert!(stream.done());
}

#[test]
fn test_next_str_type_mismatch() {
    let mut stream = Stream::new(b"7 ".to_vec()).expect("tokenize");
    let err = stream.next_str().expect_err("must fail");
    assert_eq!(err.kind, TokenErrorKind::ExpectedStr);
    assert!(stream.done());
}

#[test]
fn test_unexpected_end_of_stream() {
    let mut stream = Stream::new(Vec::new()).expect("tokenize");
    assert!(stream.done());
    let err = stream.next_int().expect_err("must fail");
    assert_eq!(err.kind, TokenErrorKind::UnexpectedEnd);
    let err = stream.next_str().expect_err("must fail");
    assert_eq!(err.kind, TokenErrorKind::UnexpectedEnd);
}

#[test]
fn test_whitespace_kinds_skipped() {
    let mut stream = Stream::new(b" \t\r\n\x0c1 2\t3\n".to_vec()).expect("tokenize");
    assert_eq!(stream.next_int().expect("one"), 1);
    assert_eq!(stream.next_int().expect("two"), 2);
    assert_eq!(stream.next_int().expect("three"), 3);
    assert!(stream.done());
}
