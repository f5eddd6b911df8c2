use calculator::parser::parse_tokens;
use calculator::{parse, CalcError, Expression, Token};

fn num(n: i32) -> Expression {
    Expression::Number { integer: n, fraction: 0, fraction_digits: 0 }
}

fn bin(op: char, l: Expression, r: Expression) -> Expression {
    Expression::Binary(op, Box::new(l), Box::new(r))
}

fn neg(e: Expression) -> Expression {
    Expression::Unary('-', Box::new(e))
}

fn paren(e: Expression) -> Expression {
    Expression::Parenthesis(Box::new(e))
}

#[test]
fn test_parse_tokens_structure() {
    let tokens = vec![
        Token::Number(12),
        Token::Plus,
        Token::Number(34),
        Token::Minus,
        Token::Number(5),
        Token::EOF,
    ];
    let expected_expression = bin('-', bin('+', num(12), num(34)), num(5));
    assert_eq!(parse_tokens(tokens).unwrap(), expected_expression);
}

#[test]
fn test_parse_tokens() {
    let tokens = vec![
        Token::Number(12),
        Token::Plus,
        Token::Number(34),
        Token::Minus,
        Token::Number(5),
        Token::EOF,
    ];
    let expected_expression = bin('-', bin('+', num(12), num(34)), num(5));
    assert_eq!(parse_tokens(tokens).unwrap(), expected_expression);
}

#[test]
fn lib_test_parse_tokens_parentheses_after_plus() {
    let tokens = vec![
        Token::Number(1),
        Token::Plus,
        Token::OpenParen,
        Token::Number(1),
        Token::CloseParen,
        Token::EOF,
    ];
    let expected_expression = bin('+', num(1), paren(num(1)));
    assert_eq!(parse_tokens(tokens).unwrap(), expected_expression);
}

#[test]
fn main_test_parse_tokens_parentheses_after_plus() {
    let tokens = vec![
        Token::Number(1),
        Token::Plus,
        Token::OpenParen,
        Token::Number(1),
        Token::CloseParen,
        Token::EOF,
    ];
    let expected_expression = bin('+', num(1), paren(num(1)));
    assert_eq!(parse_tokens(tokens).unwrap(), expected_expression);
}

#[test]
fn lib_test_parse_tokens_unary_minus() {
    let tokens = vec![Token::Minus, Token::Number(1), Token::EOF];
    let expected_expression = neg(num(1));
    assert_eq!(parse_tokens(tokens).unwrap(), expected_expression);
}

#[test]
fn main_test_parse_tokens_unary_minus() {
    let tokens = vec![Token::Minus, Token::Number(1), Token::EOF];
    let expected_expression = neg(num(1));
    assert_eq!(parse_tokens(tokens).unwrap(), expected_expression);
}

#[test]
fn lib_test_parse_tokens_plus_then_unary_minus() {
    let tokens = vec![
        Token::Number(1),
        Token::Plus,
        Token::Minus,
        Token::Number(1),
        Token::EOF,
    ];
    let expected_expression = bin('+', num(1), neg(num(1)));
    assert_eq!(parse_tokens(tokens).unwrap(), expected_expression);
}

#[test]
fn main_test_parse_tokens_plus_then_unary_minus() {
    let tokens = vec![
        Token::Number(1),
        Token::Plus,
        Token::Minus,
        Token::Number(1),
        Token::EOF,
    ];
    let expected_expression = bin('+', num(1), neg(num(1)));
    assert_eq!(parse_tokens(tokens).unwrap(), expected_expression);
}

#[test]
fn multiplication_binds_tighter_than_addition() {
    assert_eq!(parse("1+2*3").unwrap(), bin('+', num(1), bin('*', num(2), num(3))));
    assert_eq!(parse("1*2+3").unwrap(), bin('+', bin('*', num(1), num(2)), num(3)));
}

#[test]
fn addition_and_division_are_left_associative() {
    assert_eq!(parse("1+2+3").unwrap(), bin('+', bin('+', num(1), num(2)), num(3)));
    assert_eq!(parse("8/4/2").unwrap(), bin('/', bin('/', num(8), num(4)), num(2)));
}

#[test]
fn exponentiation_is_right_associative() {
    assert_eq!(parse("2^3^2").unwrap(), bin('^', num(2), bin('^', num(3), num(2))));
}

#[test]
fn unary_minus_reaches_into_the_exponent() {
    assert_eq!(parse("-2^2").unwrap(), neg(bin('^', num(2), num(2))));
    assert_eq!(parse("(-2)^2").unwrap(), bin('^', paren(neg(num(2))), num(2)));
    assert_eq!(parse("-2*3").unwrap(), bin('*', neg(num(2)), num(3)));
    assert_eq!(parse("+5").unwrap(), Expression::Unary('+', Box::new(num(5))));
}

#[test]
fn parentheses_group_explicitly() {
    assert_eq!(parse("(1+2)*3").unwrap(), bin('*', paren(bin('+', num(1), num(2))), num(3)));
}

#[test]
fn function_calls_collect_ordered_arguments() {
    assert_eq!(
        parse("max(1,2,3)").unwrap(),
        Expression::FunctionCall {
            name: String::from("max"),
            args: vec![num(1), num(2), num(3)],
        }
    );
    assert_eq!(
        parse("f()").unwrap(),
        Expression::FunctionCall { name: String::from("f"), args: vec![] }
    );
    assert_eq!(
        parse("min(1+2, 3)").unwrap(),
        Expression::FunctionCall {
            name: String::from("min"),
            args: vec![bin('+', num(1), num(2)), num(3)],
        }
    );
}

#[test]
fn bare_identifiers_stay_identifiers() {
    assert_eq!(parse("pi").unwrap(), Expression::Identifier(String::from("pi")));
}

#[test]
fn fraction_digit_count_comes_from_the_fraction_value() {
    assert_eq!(
        parse("3.14").unwrap(),
        Expression::Number { integer: 3, fraction: 14, fraction_digits: 2 }
    );
    // the leading zero of ".05" is lost in the token value, so one digit
    assert_eq!(
        parse("1.05").unwrap(),
        Expression::Number { integer: 1, fraction: 5, fraction_digits: 1 }
    );
    assert_eq!(
        parse("1.0").unwrap(),
        Expression::Number { integer: 1, fraction: 0, fraction_digits: 1 }
    );
}

#[test]
fn unterminated_group_expects_close_paren() {
    assert_eq!(
        parse("(1+2").unwrap_err(),
        CalcError::ExpectedToken { expected: Token::CloseParen, got: Token::EOF }
    );
    assert_eq!(
        parse("max(1,2").unwrap_err(),
        CalcError::ExpectedToken { expected: Token::CloseParen, got: Token::EOF }
    );
}

#[test]
fn primary_position_rejects_other_tokens() {
    assert_eq!(parse("*3").unwrap_err(), CalcError::ExpectedPrimary(Token::Mult));
    assert_eq!(parse("1+").unwrap_err(), CalcError::ExpectedPrimary(Token::EOF));
    assert_eq!(parse("").unwrap_err(), CalcError::ExpectedPrimary(Token::EOF));
}

#[test]
fn decimal_point_demands_fraction_digits() {
    assert_eq!(parse("1.").unwrap_err(), CalcError::ExpectedFractionDigits(Token::EOF));
    assert_eq!(parse("1.+2").unwrap_err(), CalcError::ExpectedFractionDigits(Token::Plus));
}

#[test]
fn trailing_tokens_after_the_expression_are_rejected() {
    assert_eq!(
        parse("1 2").unwrap_err(),
        CalcError::UnexpectedTokenAfterExpression(Token::Number(2))
    );
    assert_eq!(
        parse("1)").unwrap_err(),
        CalcError::UnexpectedTokenAfterExpression(Token::CloseParen)
    );
}

#[test]
fn cursor_past_the_end_stays_at_end_of_stream() {
    // a token sequence without an end marker is still parsed; the cursor
    // reads a virtual end-of-stream token past the end
    assert_eq!(parse_tokens(vec![Token::Number(1)]).unwrap(), num(1));
    assert_eq!(
        parse_tokens(vec![]).unwrap_err(),
        CalcError::ExpectedPrimary(Token::EOF)
    );
}

#[test]
fn parse_number_demands_a_number_token() {
    let mut p = calculator::parser::Parser { tokens: vec![Token::Plus, Token::EOF], pos: 0 };
    assert_eq!(p.parse_number().unwrap_err(), CalcError::ExpectedNumber(Token::Plus));
}

#[test]
fn cursor_primitives_use_the_end_sentinel() {
    let mut p = calculator::parser::Parser { tokens: vec![Token::Number(1)], pos: 0 };
    assert_eq!(p.peek(), Token::Number(1));
    assert_eq!(p.bump(), Token::Number(1));
    assert_eq!(p.peek(), Token::EOF);
    // past the end the cursor stays in place and keeps handing out EOF
    assert_eq!(p.bump(), Token::EOF);
    assert_eq!(p.pos, 1);
}

#[test]
fn expect_names_what_it_demanded_and_what_came() {
    let mut p = calculator::parser::Parser { tokens: vec![Token::OpenParen, Token::EOF], pos: 0 };
    assert_eq!(
        p.expect(Token::CloseParen).unwrap_err(),
        CalcError::ExpectedToken { expected: Token::CloseParen, got: Token::OpenParen }
    );
    let mut q = calculator::parser::Parser { tokens: vec![Token::OpenParen, Token::EOF], pos: 0 };
    assert!(q.expect(Token::OpenParen).is_ok());
    assert_eq!(q.pos, 1);
}
