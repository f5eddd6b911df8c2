use vstd::prelude::*;

use crate::lexer::{Token, TokenV};

verus! {

/// The single error taxonomy of the engine. Every failure is terminal: the
/// first error aborts the whole call and is handed unchanged to the caller.
#[derive(Debug, PartialEq)]
pub enum CalcError {
    /// Lexical: the first character that cannot start any token.
    UnexpectedChar(char),
    /// Syntactic: a specific token was demanded and something else came.
    ExpectedToken { expected: Token, got: Token },
    /// Syntactic: a primary expression had to start here.
    ExpectedPrimary(Token),
    /// Syntactic: a numeric literal token was demanded.
    ExpectedNumber(Token),
    /// Syntactic: a decimal point must be followed by a digit run.
    ExpectedFractionDigits(Token),
    /// Syntactic: the expression ended but tokens remain.
    UnexpectedTokenAfterExpression(Token),
    /// Semantic: an identifier that names no registered constant.
    UnknownIdentifier(String),
    /// Semantic: a call to a name that names no registered function.
    UnknownFunction(String),
    /// Semantic: an argument count outside a function's arity bounds;
    /// `expected` is the violated bound.
    WrongArity { name: String, expected: usize, got: usize },
    /// Semantic: the right operand of a division is exactly zero.
    DivideByZero,
}

/// Mathematical image of `CalcError`: strings become character sequences.
pub enum CalcErrorV {
    UnexpectedChar(char),
    ExpectedToken { expected: TokenV, got: TokenV },
    ExpectedPrimary(TokenV),
    ExpectedNumber(TokenV),
    ExpectedFractionDigits(TokenV),
    UnexpectedTokenAfterExpression(TokenV),
    UnknownIdentifier(Seq<char>),
    UnknownFunction(Seq<char>),
    WrongArity { name: Seq<char>, expected: nat, got: nat },
    DivideByZero,
}

impl View for CalcError {
    type V = CalcErrorV;

    open spec fn view(&self) -> CalcErrorV {
        match self {
            CalcError::UnexpectedChar(c) => CalcErrorV::UnexpectedChar(*c),
            CalcError::ExpectedToken { expected, got } => CalcErrorV::ExpectedToken {
                expected: expected@,
                got: got@,
            },
            CalcError::ExpectedPrimary(t) => CalcErrorV::ExpectedPrimary(t@),
            CalcError::ExpectedNumber(t) => CalcErrorV::ExpectedNumber(t@),
            CalcError::ExpectedFractionDigits(t) => CalcErrorV::ExpectedFractionDigits(t@),
            CalcError::UnexpectedTokenAfterExpression(t) => {
                CalcErrorV::UnexpectedTokenAfterExpression(t@)
            },
            CalcError::UnknownIdentifier(s) => CalcErrorV::UnknownIdentifier(s@),
            CalcError::UnknownFunction(s) => CalcErrorV::UnknownFunction(s@),
            CalcError::WrongArity { name, expected, got } => CalcErrorV::WrongArity {
                name: name@,
                expected: *expected as nat,
                got: *got as nat,
            },
            CalcError::DivideByZero => CalcErrorV::DivideByZero,
        }
    }
}

} // verus!
