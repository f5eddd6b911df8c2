use calculator::lexer::{parse_input, tokenize};
use calculator::{CalcError, Token};

#[test]
fn test_parse_input_tokens() {
    let input = "12 + 34 - 5";
    let expected_tokens = vec![
        Token::Number(12),
        Token::Plus,
        Token::Number(34),
        Token::Minus,
        Token::Number(5),
        Token::EOF,
    ];
    assert_eq!(tokenize(input).unwrap(), expected_tokens);
}

#[test]
fn test_parse_input() {
    let input = "12 + 34 - 5";
    let expected_tokens = vec![
        Token::Number(12),
        Token::Plus,
        Token::Number(34),
        Token::Minus,
        Token::Number(5),
        Token::EOF,
    ];
    assert_eq!(parse_input(input).unwrap(), expected_tokens);
}

#[test]
fn lib_test_error_unexpected_char() {
    assert!(tokenize("1@").is_err());
}

#[test]
fn main_test_error_unexpected_char() {
    assert!(parse_input("1@").is_err());
}

#[test]
fn unexpected_char_is_reported_verbatim() {
    assert_eq!(tokenize("1@").unwrap_err(), CalcError::UnexpectedChar('@'));
    assert_eq!(tokenize("#").unwrap_err(), CalcError::UnexpectedChar('#'));
    assert_eq!(tokenize("1 + ~2").unwrap_err(), CalcError::UnexpectedChar('~'));
}

#[test]
fn empty_and_blank_inputs_tokenize_to_end_marker_only() {
    assert_eq!(tokenize("").unwrap(), vec![Token::EOF]);
    assert_eq!(tokenize("   ").unwrap(), vec![Token::EOF]);
}

#[test]
fn every_single_character_token() {
    assert_eq!(
        tokenize(".,+-*/^()").unwrap(),
        vec![
            Token::DecimalPoint,
            Token::Comma,
            Token::Plus,
            Token::Minus,
            Token::Mult,
            Token::Div,
            Token::Pow,
            Token::OpenParen,
            Token::CloseParen,
            Token::EOF,
        ]
    );
}

#[test]
fn identifier_casing_is_preserved() {
    assert_eq!(
        tokenize("PiE_2 x").unwrap(),
        vec![
            Token::Ident(String::from("PiE_2")),
            Token::Ident(String::from("x")),
            Token::EOF,
        ]
    );
}

#[test]
fn call_shape_tokens() {
    assert_eq!(
        tokenize("max(1,2.5)").unwrap(),
        vec![
            Token::Ident(String::from("max")),
            Token::OpenParen,
            Token::Number(1),
            Token::Comma,
            Token::Number(2),
            Token::DecimalPoint,
            Token::Number(5),
            Token::CloseParen,
            Token::EOF,
        ]
    );
}

#[test]
fn digit_runs_saturate_at_i32_max() {
    assert_eq!(tokenize("2147483647").unwrap(), vec![Token::Number(i32::MAX), Token::EOF]);
    assert_eq!(tokenize("2147483648").unwrap(), vec![Token::Number(i32::MAX), Token::EOF]);
    assert_eq!(
        tokenize("99999999999999999999").unwrap(),
        vec![Token::Number(i32::MAX), Token::EOF]
    );
}

#[test]
fn leading_zeros_lose_their_count_at_the_lexer() {
    // "05" carries the same token value as "5": the digit run is
    // accumulated into one integer.
    assert_eq!(tokenize("05").unwrap(), vec![Token::Number(5), Token::EOF]);
}
