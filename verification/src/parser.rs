use vstd::prelude::*;

use crate::builtins::{
    infix_binding_power, prefix_binding_power, spec_infix_binding_power, spec_prefix_binding_power,
};
use crate::error::{CalcError, CalcErrorV};
use crate::lexer::{token_views, Token, TokenV};

verus! {

/// The abstract syntax tree of one expression, built bottom-up by the parser
/// and consumed by read-only traversal. A numeric literal keeps the integer
/// part, the fractional digit run's value, and the count of decimal digits
/// that run is taken to span (the decimal length of its absolute value); the
/// literal stands for `integer + fraction / 10^fraction_digits`. A
/// parenthesis node records that the source used grouping, although it does
/// not change evaluation.
#[derive(Debug, PartialEq)]
pub enum Expression {
    Number { integer: i32, fraction: i32, fraction_digits: u32 },
    Identifier(String),
    Unary(char, Box<Expression>),
    Binary(char, Box<Expression>, Box<Expression>),
    FunctionCall { name: String, args: Vec<Expression> },
    Parenthesis(Box<Expression>),
}

/// Mathematical image of `Expression`.
pub enum ExprV {
    Number { integer: i32, fraction: i32, fraction_digits: u32 },
    Identifier(Seq<char>),
    Unary(char, Box<ExprV>),
    Binary(char, Box<ExprV>, Box<ExprV>),
    FunctionCall { name: Seq<char>, args: Seq<ExprV> },
    Parenthesis(Box<ExprV>),
}

/// The mathematical image of an expression tree.
pub open spec fn expr_view(e: Expression) -> ExprV
    decreases e,
    via expr_view_decreases
{
    match e {
        Expression::Number { integer, fraction, fraction_digits } => ExprV::Number {
            integer,
            fraction,
            fraction_digits,
        },
        Expression::Identifier(s) => ExprV::Identifier(s@),
        Expression::Unary(op, sub) => ExprV::Unary(op, Box::new(expr_view(*sub))),
        Expression::Binary(op, l, r) => ExprV::Binary(
            op,
            Box::new(expr_view(*l)),
            Box::new(expr_view(*r)),
        ),
        Expression::FunctionCall { .. } => ExprV::FunctionCall {
            name: e->name@,
            // the range guard keeps the recursion on elements of the list
            args: Seq::new(
                e->args@.len(),
                |i: int|
                    if 0 <= i < e->args@.len() {
                        expr_view(e->args@[i])
                    } else {
                        ExprV::Number { integer: 0, fraction: 0, fraction_digits: 0 }
                    },
            ),
        },
        Expression::Parenthesis(sub) => ExprV::Parenthesis(Box::new(expr_view(*sub))),
    }
}

#[via_fn]
proof fn expr_view_decreases(e: Expression) {
    if let Expression::FunctionCall { .. } = e {
        assert forall|i: int| 0 <= i < e->args@.len() implies decreases_to!(e => e->args@[i]) by {
            assert(decreases_to!(e => e->args));
            assert(decreases_to!(e->args => e->args@));
            assert(decreases_to!(e->args@ => e->args@[i]));
        }
    }
}

impl View for Expression {
    type V = ExprV;

    open spec fn view(&self) -> ExprV {
        expr_view(*self)
    }
}

/// The views of a sequence of expressions.
pub open spec fn expr_views(s: Seq<Expression>) -> Seq<ExprV> {
    s.map_values(|e: Expression| e@)
}

/// The token the cursor shows at position `i`: past the end it shows `EOF`,
/// never an out-of-range failure.
pub open spec fn tok_at(ts: Seq<TokenV>, i: int) -> TokenV {
    if 0 <= i < ts.len() {
        ts[i]
    } else {
        TokenV::EOF
    }
}

/// The operator symbol a token stands for, or `None` for non-operator
/// tokens.
pub open spec fn op_char_of(t: TokenV) -> Option<char> {
    match t {
        TokenV::Plus => Some('+'),
        TokenV::Minus => Some('-'),
        TokenV::Mult => Some('*'),
        TokenV::Div => Some('/'),
        TokenV::Pow => Some('^'),
        _ => None,
    }
}

/// How many tokens remain at position `pos`, clamped below at zero.
pub open spec fn tokens_left(ts: Seq<TokenV>, pos: int) -> int {
    if pos <= ts.len() {
        ts.len() - pos
    } else {
        0
    }
}

/// The number of decimal digits of `n`: one for values below ten, one more
/// for each further power of ten.
pub open spec fn dec_len(n: nat) -> nat
    decreases n,
{
    if n < 10 {
        1
    } else {
        1 + dec_len(n / 10)
    }
}

/// Ten to the power `k`.
pub open spec fn pow10(k: nat) -> nat
    decreases k,
{
    if k == 0 {
        1
    } else {
        10 * pow10((k - 1) as nat)
    }
}

/// The absolute value of a 32-bit integer, as a natural number.
pub open spec fn abs_i32(n: i32) -> nat {
    if n >= 0 {
        n as nat
    } else {
        (-(n as int)) as nat
    }
}

/// The decimal digit count the parser derives for a fractional part: the
/// decimal length of the fractional integer's absolute value. Leading zeros
/// of the source text are not visible in that value, so `1.05` yields digit
/// count 1, as the fraction rule states.
pub open spec fn spec_fraction_digits(frac: i32) -> u32 {
    dec_len(abs_i32(frac)) as u32
}

/// A value below `pow10(k)` has at most `k` decimal digits.
proof fn lemma_dec_len_below(n: nat, k: nat)
    requires
        k >= 1,
        n < pow10(k),
    ensures
        dec_len(n) <= k,
    decreases k,
{
    if n < 10 {
    } else {
        assert(pow10(k) == 10 * pow10((k - 1) as nat));
        assert(n / 10 < pow10((k - 1) as nat));
        lemma_dec_len_below(n / 10, (k - 1) as nat);
    }
}

/// Any 32-bit magnitude has at most ten decimal digits.
proof fn lemma_dec_len_u32(n: nat)
    requires
        n <= 0x1_0000_0000,
    ensures
        dec_len(n) <= 10,
{
    reveal_with_fuel(pow10, 11);
    assert(pow10(10) == 10_000_000_000);
    lemma_dec_len_below(n, 10);
}

/// Precedence-climbing, prefix step and climb: parse one prefix term, then
/// fold in every infix operator whose left binding power clears `min_bp`.
/// Yields the parsed tree and the position one past what it consumed; after
/// an error the position is not meaningful.
pub open spec fn sp_parse_bp(ts: Seq<TokenV>, pos: int, min_bp: int) -> (Result<
    ExprV,
    CalcErrorV,
>, int)
    decreases tokens_left(ts, pos), 3int,
{
    let first = tok_at(ts, pos);
    let step = match op_char_of(first) {
        Some(c) => match spec_prefix_binding_power(c) {
            Some(pbp) => {
                let sub = sp_parse_bp(ts, pos + 1, pbp as int);
                (
                    match sub.0 {
                        Ok(e) => Ok(ExprV::Unary(c, Box::new(e))),
                        Err(err) => Err(err),
                    },
                    sub.1,
                )
            },
            None => sp_parse_primary(ts, pos),
        },
        None => sp_parse_primary(ts, pos),
    };
    match step.0 {
        Err(err) => (Err(err), step.1),
        Ok(lhs) => sp_infix_climb(
            ts,
            if pos <= step.1 {
                step.1
            } else {
                pos
            },
            min_bp,
            lhs,
        ),
    }
}

/// The climbing loop: while the next token is an infix operator whose left
/// binding power is at least `min_bp`, consume it, parse its right-hand side
/// at its right binding power, and fold a binary node.
pub open spec fn sp_infix_climb(ts: Seq<TokenV>, pos: int, min_bp: int, lhs: ExprV) -> (Result<
    ExprV,
    CalcErrorV,
>, int)
    decreases tokens_left(ts, pos), 2int,
{
    match op_char_of(tok_at(ts, pos)) {
        Some(c) => match spec_infix_binding_power(c) {
            Some(bp) => {
                if bp.0 as int >= min_bp {
                    let sub = sp_parse_bp(ts, pos + 1, bp.1 as int);
                    match sub.0 {
                        Err(err) => (Err(err), sub.1),
                        Ok(rhs) => sp_infix_climb(
                            ts,
                            if sub.1 > pos {
                                sub.1
                            } else {
                                pos + 1
                            },
                            min_bp,
                            ExprV::Binary(c, Box::new(lhs), Box::new(rhs)),
                        ),
                    }
                } else {
                    (Ok(lhs), pos)
                }
            },
            None => (Ok(lhs), pos),
        },
        None => (Ok(lhs), pos),
    }
}

/// A numeric literal: an integer token, optionally followed by a decimal
/// point that must itself be followed by an integer token giving the
/// fractional digits.
pub open spec fn sp_parse_number(ts: Seq<TokenV>, pos: int) -> (Result<ExprV, CalcErrorV>, int) {
    match tok_at(ts, pos) {
        TokenV::Number(n) => {
            if tok_at(ts, pos + 1) == TokenV::DecimalPoint {
                match tok_at(ts, pos + 2) {
                    TokenV::Number(frac) => (
                        Ok(
                            ExprV::Number {
                                integer: n,
                                fraction: frac,
                                fraction_digits: spec_fraction_digits(frac),
                            },
                        ),
                        pos + 3,
                    ),
                    t2 => (Err(CalcErrorV::ExpectedFractionDigits(t2)), pos),
                }
            } else {
                (Ok(ExprV::Number { integer: n, fraction: 0, fraction_digits: 0 }), pos + 1)
            }
        },
        t => (Err(CalcErrorV::ExpectedNumber(t)), pos),
    }
}

/// A comma-separated argument list: one expression, then further expressions
/// for as long as a comma follows. The closing parenthesis is not consumed
/// here.
pub open spec fn sp_parse_args(ts: Seq<TokenV>, pos: int) -> (Result<Seq<ExprV>, CalcErrorV>, int)
    decreases tokens_left(ts, pos), 4int,
{
    let head = sp_parse_bp(ts, pos, 0);
    match head.0 {
        Err(err) => (Err(err), head.1),
        Ok(e) => {
            if tok_at(ts, head.1) == TokenV::Comma && pos <= head.1 {
                let rest = sp_parse_args(ts, head.1 + 1);
                (
                    match rest.0 {
                        Ok(more) => Ok(seq![e] + more),
                        Err(err) => Err(err),
                    },
                    rest.1,
                )
            } else {
                (Ok(seq![e]), head.1)
            }
        },
    }
}

/// A primary term: a numeric literal; an identifier, turned into a function
/// call when an open parenthesis follows it (empty argument lists allowed,
/// the close parenthesis required); or a parenthesized sub-expression. Any
/// other token fails `ExpectedPrimary`.
pub open spec fn sp_parse_primary(ts: Seq<TokenV>, pos: int) -> (Result<ExprV, CalcErrorV>, int)
    decreases tokens_left(ts, pos), 1int,
{
    match tok_at(ts, pos) {
        TokenV::Number(_) => sp_parse_number(ts, pos),
        TokenV::Ident(name) => {
            if tok_at(ts, pos + 1) == TokenV::OpenParen {
                if tok_at(ts, pos + 2) == TokenV::CloseParen {
                    (Ok(ExprV::FunctionCall { name, args: Seq::empty() }), pos + 3)
                } else {
                    let alist = sp_parse_args(ts, pos + 2);
                    match alist.0 {
                        Err(err) => (Err(err), alist.1),
                        Ok(args) => {
                            if tok_at(ts, alist.1) == TokenV::CloseParen {
                                (Ok(ExprV::FunctionCall { name, args }), alist.1 + 1)
                            } else {
                                (
                                    Err(
                                        CalcErrorV::ExpectedToken {
                                            expected: TokenV::CloseParen,
                                            got: tok_at(ts, alist.1),
                                        },
                                    ),
                                    alist.1,
                                )
                            }
                        },
                    }
                }
            } else {
                (Ok(ExprV::Identifier(name)), pos + 1)
            }
        },
        TokenV::OpenParen => {
            let inner = sp_parse_bp(ts, pos + 1, 0);
            match inner.0 {
                Err(err) => (Err(err), inner.1),
                Ok(e) => {
                    if tok_at(ts, inner.1) == TokenV::CloseParen {
                        (Ok(ExprV::Parenthesis(Box::new(e))), inner.1 + 1)
                    } else {
                        (
                            Err(
                                CalcErrorV::ExpectedToken {
                                    expected: TokenV::CloseParen,
                                    got: tok_at(ts, inner.1),
                                },
                            ),
                            inner.1,
                        )
                    }
                },
            }
        },
        t => (Err(CalcErrorV::ExpectedPrimary(t)), pos),
    }
}

/// A whole token sequence: one expression from position zero, after which
/// the cursor must stand exactly on the end-of-stream token.
pub open spec fn sp_parse_tokens(ts: Seq<TokenV>) -> Result<ExprV, CalcErrorV> {
    let top = sp_parse_bp(ts, 0, 0);
    match top.0 {
        Err(err) => Err(err),
        Ok(e) => {
            if tok_at(ts, top.1) == TokenV::EOF {
                Ok(e)
            } else {
                Err(CalcErrorV::UnexpectedTokenAfterExpression(tok_at(ts, top.1)))
            }
        },
    }
}

/// A successful parse strictly consumes at least one token and never runs
/// past the end of the sequence: parsing is bounded by the input size, each
/// production consuming at least one token along every successful path.
pub proof fn lemma_parse_bp_consumes(ts: Seq<TokenV>, pos: int, min_bp: int)
    requires
        0 <= pos <= ts.len(),
    ensures
        sp_parse_bp(ts, pos, min_bp).0 is Ok ==> pos < sp_parse_bp(ts, pos, min_bp).1
            <= ts.len(),
    decreases tokens_left(ts, pos), 3int,
{
    let first = tok_at(ts, pos);
    match op_char_of(first) {
        Some(c) => match spec_prefix_binding_power(c) {
            Some(pbp) => {
                lemma_parse_bp_consumes(ts, pos + 1, pbp as int);
                let sub = sp_parse_bp(ts, pos + 1, pbp as int);
                if sub.0 is Ok {
                    lemma_infix_climb_extends(ts, sub.1, min_bp, ExprV::Unary(c, Box::new(sub.0->Ok_0)));
                }
            },
            None => {
                lemma_primary_consumes(ts, pos);
                let step = sp_parse_primary(ts, pos);
                if step.0 is Ok {
                    lemma_infix_climb_extends(ts, step.1, min_bp, step.0->Ok_0);
                }
            },
        },
        None => {
            lemma_primary_consumes(ts, pos);
            let step = sp_parse_primary(ts, pos);
            if step.0 is Ok {
                lemma_infix_climb_extends(ts, step.1, min_bp, step.0->Ok_0);
            }
        },
    }
}

/// The climb only moves the cursor forward, and never past the end.
proof fn lemma_infix_climb_extends(ts: Seq<TokenV>, pos: int, min_bp: int, lhs: ExprV)
    requires
        0 <= pos <= ts.len(),
    ensures
        sp_infix_climb(ts, pos, min_bp, lhs).0 is Ok ==> pos <= sp_infix_climb(
            ts,
            pos,
            min_bp,
            lhs,
        ).1 <= ts.len(),
    decreases tokens_left(ts, pos), 2int,
{
    match op_char_of(tok_at(ts, pos)) {
        Some(c) => match spec_infix_binding_power(c) {
            Some(bp) => {
                if bp.0 as int >= min_bp {
                    lemma_parse_bp_consumes(ts, pos + 1, bp.1 as int);
                    let sub = sp_parse_bp(ts, pos + 1, bp.1 as int);
                    if sub.0 is Ok {
                        lemma_infix_climb_extends(
                            ts,
                            sub.1,
                            min_bp,
                            ExprV::Binary(c, Box::new(lhs), Box::new(sub.0->Ok_0)),
                        );
                    }
                }
            },
            None => {},
        },
        None => {},
    }
}

/// A successful primary term strictly consumes tokens within bounds.
proof fn lemma_primary_consumes(ts: Seq<TokenV>, pos: int)
    requires
        0 <= pos <= ts.len(),
    ensures
        sp_parse_primary(ts, pos).0 is Ok ==> pos < sp_parse_primary(ts, pos).1 <= ts.len(),
    decreases tokens_left(ts, pos), 1int,
{
    match tok_at(ts, pos) {
        TokenV::Number(_) => {},
        TokenV::Ident(_) => {
            if tok_at(ts, pos + 1) == TokenV::OpenParen && tok_at(ts, pos + 2)
                != TokenV::CloseParen {
                lemma_args_consume(ts, pos + 2);
            }
        },
        TokenV::OpenParen => {
            lemma_parse_bp_consumes(ts, pos + 1, 0);
        },
        _ => {},
    }
}

/// A successful argument list strictly consumes tokens within bounds.
proof fn lemma_args_consume(ts: Seq<TokenV>, pos: int)
    requires
        0 <= pos <= ts.len(),
    ensures
        sp_parse_args(ts, pos).0 is Ok ==> pos < sp_parse_args(ts, pos).1 <= ts.len(),
    decreases tokens_left(ts, pos), 4int,
{
    lemma_parse_bp_consumes(ts, pos, 0);
    let head = sp_parse_bp(ts, pos, 0);
    if head.0 is Ok && tok_at(ts, head.1) == TokenV::Comma && pos <= head.1 {
        lemma_args_consume(ts, head.1 + 1);
    }
}

/// The token an operator symbol prints back to. Symbols outside the
/// operator table never appear in parsed trees; they map to the end marker.
pub open spec fn token_of_op(c: char) -> TokenV {
    if c == '+' {
        TokenV::Plus
    } else if c == '-' {
        TokenV::Minus
    } else if c == '*' {
        TokenV::Mult
    } else if c == '/' {
        TokenV::Div
    } else if c == '^' {
        TokenV::Pow
    } else {
        TokenV::EOF
    }
}

/// The token sequence an expression tree prints back to.
pub open spec fn unparse(e: ExprV) -> Seq<TokenV>
    decreases e, 0int,
{
    match e {
        ExprV::Number { integer, fraction, fraction_digits } => {
            if fraction_digits == 0 {
                seq![TokenV::Number(integer)]
            } else {
                seq![TokenV::Number(integer), TokenV::DecimalPoint, TokenV::Number(fraction)]
            }
        },
        ExprV::Identifier(name) => seq![TokenV::Ident(name)],
        ExprV::Unary(c, sub) => seq![token_of_op(c)] + unparse(*sub),
        ExprV::Binary(c, l, r) => unparse(*l) + seq![token_of_op(c)] + unparse(*r),
        ExprV::FunctionCall { .. } => seq![
            TokenV::Ident(e->name),
            TokenV::OpenParen,
        ] + unparse_args(e->args) + seq![TokenV::CloseParen],
        ExprV::Parenthesis(sub) => seq![TokenV::OpenParen] + unparse(*sub) + seq![
            TokenV::CloseParen,
        ],
    }
}

/// The token sequence of a comma-separated argument list.
pub open spec fn unparse_args(args: Seq<ExprV>) -> Seq<TokenV>
    decreases args, 1int,
{
    if args.len() == 0 {
        seq![]
    } else if args.len() == 1 {
        unparse(args[0])
    } else {
        unparse(args[0]) + seq![TokenV::Comma] + unparse_args(
            args.subrange(1, args.len() as int),
        )
    }
}

/// What a successful parse consumed is exactly what its tree prints back:
/// the tree spans the token range from the position the parse started at to
/// the position it ended at.
pub proof fn lemma_parse_bp_faithful(ts: Seq<TokenV>, pos: int, min_bp: int)
    requires
        0 <= pos <= ts.len(),
    ensures
        sp_parse_bp(ts, pos, min_bp).0 is Ok ==> ts.subrange(pos, sp_parse_bp(ts, pos, min_bp).1)
            == unparse(sp_parse_bp(ts, pos, min_bp).0->Ok_0),
    decreases tokens_left(ts, pos), 3int,
{
    let first = tok_at(ts, pos);
    let prefixed = op_char_of(first) is Some && spec_prefix_binding_power(
        op_char_of(first)->Some_0,
    ) is Some;
    if prefixed {
        let c = op_char_of(first)->Some_0;
        let pbp = spec_prefix_binding_power(c) ->Some_0;
        lemma_parse_bp_consumes(ts, pos + 1, pbp as int);
        lemma_parse_bp_faithful(ts, pos + 1, pbp as int);
        let sub = sp_parse_bp(ts, pos + 1, pbp as int);
        if sub.0 is Ok {
            let lhs = ExprV::Unary(c, Box::new(sub.0->Ok_0));
            assert(token_of_op(c) == first);
            assert(ts.subrange(pos, sub.1) =~= seq![first] + ts.subrange(pos + 1, sub.1));
            lemma_climb_assemble(ts, pos, sub.1, min_bp, lhs);
        }
    } else {
        lemma_primary_consumes(ts, pos);
        lemma_primary_faithful(ts, pos);
        let step = sp_parse_primary(ts, pos);
        if step.0 is Ok {
            lemma_climb_assemble(ts, pos, step.1, min_bp, step.0->Ok_0);
        }
    }
}

/// Joins a parsed prefix term to the climb that follows it: if the term
/// spans `start..pos`, the climbed result spans `start..` its end.
proof fn lemma_climb_assemble(ts: Seq<TokenV>, start: int, pos: int, min_bp: int, lhs: ExprV)
    requires
        0 <= start <= pos <= ts.len(),
        ts.subrange(start, pos) == unparse(lhs),
    ensures
        sp_infix_climb(ts, pos, min_bp, lhs).0 is Ok ==> ts.subrange(
            start,
            sp_infix_climb(ts, pos, min_bp, lhs).1,
        ) == unparse(sp_infix_climb(ts, pos, min_bp, lhs).0->Ok_0),
    decreases tokens_left(ts, pos), 2int,
{
    let t = tok_at(ts, pos);
    if op_char_of(t) is Some {
        let c = op_char_of(t)->Some_0;
        if spec_infix_binding_power(c) is Some {
            let bp = spec_infix_binding_power(c)->Some_0;
            if bp.0 as int >= min_bp {
                lemma_parse_bp_consumes(ts, pos + 1, bp.1 as int);
                lemma_parse_bp_faithful(ts, pos + 1, bp.1 as int);
                let sub = sp_parse_bp(ts, pos + 1, bp.1 as int);
                if sub.0 is Ok {
                    let folded = ExprV::Binary(c, Box::new(lhs), Box::new(sub.0->Ok_0));
                    assert(token_of_op(c) == t);
                    assert(ts.subrange(start, sub.1) =~= ts.subrange(start, pos) + seq![t]
                        + ts.subrange(pos + 1, sub.1));
                    assert(ts.subrange(start, sub.1) == unparse(folded));
                    lemma_climb_assemble(ts, start, sub.1, min_bp, folded);
                }
            }
        }
    }
}

/// A successful primary term spans exactly the tokens it consumed.
proof fn lemma_primary_faithful(ts: Seq<TokenV>, pos: int)
    requires
        0 <= pos <= ts.len(),
    ensures
        sp_parse_primary(ts, pos).0 is Ok ==> ts.subrange(pos, sp_parse_primary(ts, pos).1)
            == unparse(sp_parse_primary(ts, pos).0->Ok_0),
    decreases tokens_left(ts, pos), 1int,
{
    match tok_at(ts, pos) {
        TokenV::Number(n) => {
            if tok_at(ts, pos + 1) == TokenV::DecimalPoint && tok_at(ts, pos + 2) is Number {
                let frac = tok_at(ts, pos + 2)->Number_0;
                lemma_dec_len_u32(abs_i32(frac));
                assert(spec_fraction_digits(frac) >= 1);
                assert(ts.subrange(pos, pos + 3) =~= seq![
                    TokenV::Number(n),
                    TokenV::DecimalPoint,
                    TokenV::Number(frac),
                ]);
            } else if tok_at(ts, pos + 1) != TokenV::DecimalPoint {
                assert(ts.subrange(pos, pos + 1) =~= seq![TokenV::Number(n)]);
            }
        },
        TokenV::Ident(name) => {
            if tok_at(ts, pos + 1) == TokenV::OpenParen {
                if tok_at(ts, pos + 2) == TokenV::CloseParen {
                    let call = ExprV::FunctionCall { name, args: Seq::empty() };
                    assert(ts.subrange(pos, pos + 3) =~= seq![
                        TokenV::Ident(name),
                        TokenV::OpenParen,
                    ] + unparse_args(Seq::empty()) + seq![TokenV::CloseParen]);
                } else {
                    lemma_args_consume(ts, pos + 2);
                    lemma_args_faithful(ts, pos + 2);
                    let alist = sp_parse_args(ts, pos + 2);
                    if alist.0 is Ok && tok_at(ts, alist.1) == TokenV::CloseParen {
                        assert(ts.subrange(pos, alist.1 + 1) =~= seq![
                            TokenV::Ident(name),
                            TokenV::OpenParen,
                        ] + ts.subrange(pos + 2, alist.1) + seq![TokenV::CloseParen]);
                    }
                }
            } else {
                assert(ts.subrange(pos, pos + 1) =~= seq![TokenV::Ident(name)]);
            }
        },
        TokenV::OpenParen => {
            lemma_parse_bp_consumes(ts, pos + 1, 0);
            lemma_parse_bp_faithful(ts, pos + 1, 0);
            let inner = sp_parse_bp(ts, pos + 1, 0);
            if inner.0 is Ok && tok_at(ts, inner.1) == TokenV::CloseParen {
                assert(ts.subrange(pos, inner.1 + 1) =~= seq![TokenV::OpenParen] + ts.subrange(
                    pos + 1,
                    inner.1,
                ) + seq![TokenV::CloseParen]);
            }
        },
        _ => {},
    }
}

/// A successful argument list is never empty and spans exactly the tokens it
/// consumed.
proof fn lemma_args_faithful(ts: Seq<TokenV>, pos: int)
    requires
        0 <= pos <= ts.len(),
    ensures
        sp_parse_args(ts, pos).0 is Ok ==> sp_parse_args(ts, pos).0->Ok_0.len() >= 1
            && ts.subrange(pos, sp_parse_args(ts, pos).1) == unparse_args(
            sp_parse_args(ts, pos).0->Ok_0,
        ),
    decreases tokens_left(ts, pos), 4int,
{
    lemma_parse_bp_consumes(ts, pos, 0);
    lemma_parse_bp_faithful(ts, pos, 0);
    let head = sp_parse_bp(ts, pos, 0);
    if head.0 is Ok {
        let e = head.0->Ok_0;
        if tok_at(ts, head.1) == TokenV::Comma && pos <= head.1 {
            lemma_args_consume(ts, head.1 + 1);
            lemma_args_faithful(ts, head.1 + 1);
            let rest = sp_parse_args(ts, head.1 + 1);
            if rest.0 is Ok {
                let more = rest.0->Ok_0;
                let whole = seq![e] + more;
                assert(whole.len() >= 2);
                assert(whole[0] == e);
                assert(whole.subrange(1, whole.len() as int) =~= more);
                assert(ts.subrange(pos, rest.1) =~= ts.subrange(pos, head.1) + seq![
                    TokenV::Comma,
                ] + ts.subrange(head.1 + 1, rest.1));
                assert(unparse_args(whole) == unparse(e) + seq![TokenV::Comma] + unparse_args(
                    more,
                ));
            }
        } else {
            assert(unparse_args(seq![e]) == unparse(e));
        }
    }
}

/// The view of a parse result.
pub open spec fn parse_result_view(r: Result<Expression, CalcError>) -> Result<ExprV, CalcErrorV> {
    match r {
        Ok(e) => Ok(e@),
        Err(e) => Err(e@),
    }
}

/// Whether an executable parsing step agrees with its mirror: on success the
/// tree and the final position match; on failure the error matches (the
/// position after an error is not meaningful).
pub open spec fn step_matches(
    r: Result<Expression, CalcError>,
    pos: int,
    s: (Result<ExprV, CalcErrorV>, int),
) -> bool {
    match r {
        Ok(e) => s.0 == Ok::<ExprV, CalcErrorV>(e@) && pos == s.1,
        Err(e) => s.0 == Err::<ExprV, CalcErrorV>(e@),
    }
}

/// The parser's token cursor: the token sequence and the position of the
/// next unread token.
pub struct Parser {
    pub tokens: Vec<Token>,
    pub pos: usize,
}

impl Parser {
    /// The cursor's token sequence, as mathematical values.
    pub open spec fn toks(&self) -> Seq<TokenV> {
        token_views(self.tokens@)
    }

    /// The cursor never stands beyond one past the last token.
    pub open spec fn wf(&self) -> bool {
        self.pos <= self.tokens@.len()
    }

    /// The current token without consuming it; `EOF` past the end.
    pub fn peek(&self) -> (t: Token)
        ensures
            t@ == tok_at(self.toks(), self.pos as int),
    {
        if self.pos < self.tokens.len() {
            self.tokens[self.pos].clone()
        } else {
            Token::EOF
        }
    }

    /// Consume and return the current token; past the end it returns `EOF`
    /// and stays in place, never an out-of-range failure.
    pub fn bump(&mut self) -> (t: Token)
        requires
            old(self).wf(),
        ensures
            final(self).wf(),
            final(self).tokens == old(self).tokens,
            t@ == tok_at(old(self).toks(), old(self).pos as int),
            final(self).pos == if old(self).pos < old(self).tokens@.len() {
                old(self).pos + 1
            } else {
                old(self).pos as int
            },
    {
        if self.pos >= self.tokens.len() {
            return Token::EOF;
        }
        let t = self.tokens[self.pos].clone();
        self.pos = self.pos + 1;
        t
    }

    /// Demand one specific token: consume it and pass, or fail
    /// `ExpectedToken` naming what was demanded and what came.
    pub fn expect(&mut self, expected: Token) -> (r: Result<(), CalcError>)
        requires
            old(self).wf(),
        ensures
            final(self).wf(),
            final(self).tokens == old(self).tokens,
            old(self).pos <= final(self).pos <= old(self).pos + 1,
            match r {
                Ok(u) => tok_at(old(self).toks(), old(self).pos as int) == expected@
                    && final(self).pos == if old(self).pos < old(self).tokens@.len() {
                    old(self).pos + 1
                } else {
                    old(self).pos as int
                },
                Err(e) => tok_at(old(self).toks(), old(self).pos as int) != expected@ && e@
                    == (CalcErrorV::ExpectedToken {
                    expected: expected@,
                    got: tok_at(old(self).toks(), old(self).pos as int),
                }),
            },
    {
        let got = self.bump();
        if token_eq(&got, &expected) {
            Ok(())
        } else {
            Err(CalcError::ExpectedToken { expected, got })
        }
    }
}

/// Whether two tokens are the same token with the same payload.
fn token_eq(a: &Token, b: &Token) -> (r: bool)
    ensures
        r == (a@ == b@),
{
    match (a, b) {
        (Token::Number(x), Token::Number(y)) => *x == *y,
        (Token::Ident(x), Token::Ident(y)) => x.eq(y),
        (Token::DecimalPoint, Token::DecimalPoint) => true,
        (Token::Comma, Token::Comma) => true,
        (Token::Plus, Token::Plus) => true,
        (Token::Minus, Token::Minus) => true,
        (Token::Mult, Token::Mult) => true,
        (Token::Div, Token::Div) => true,
        (Token::Pow, Token::Pow) => true,
        (Token::OpenParen, Token::OpenParen) => true,
        (Token::CloseParen, Token::CloseParen) => true,
        (Token::EOF, Token::EOF) => true,
        _ => false,
    }
}

/// The operator symbol a token stands for.
fn op_char(t: &Token) -> (r: Option<char>)
    ensures
        r == op_char_of(t@),
{
    match t {
        Token::Plus => Some('+'),
        Token::Minus => Some('-'),
        Token::Mult => Some('*'),
        Token::Div => Some('/'),
        Token::Pow => Some('^'),
        _ => None,
    }
}

/// The number of decimal digits of a 32-bit magnitude.
fn decimal_digits_of(m: u32) -> (d: u32)
    ensures
        d as nat == dec_len(m as nat),
        d <= 10,
    decreases m,
{
    proof {
        lemma_dec_len_u32(m as nat);
    }
    if m < 10 {
        1
    } else {
        1 + decimal_digits_of(m / 10)
    }
}

/// An expression view sequence grows at the front as the argument list
/// recursion returns.
proof fn lemma_expr_views_insert_front(s: Seq<Expression>, e: Expression)
    ensures
        expr_views(s.insert(0, e)) == seq![e@] + expr_views(s),
{
    assert(expr_views(s.insert(0, e)) =~= seq![e@] + expr_views(s));
}

/// A function-call node's view carries the views of its arguments.
proof fn lemma_call_view(e: &Expression)
    requires
        e is FunctionCall,
    ensures
        e@ == (ExprV::FunctionCall { name: e->name@, args: expr_views(e->args@) }),
{
    assert(e@->args =~= expr_views(e->args@));
}

/// Whether an executable argument-list step agrees with its mirror.
pub open spec fn args_step_matches(
    r: Result<Vec<Expression>, CalcError>,
    pos: int,
    s: (Result<Seq<ExprV>, CalcErrorV>, int),
) -> bool {
    match r {
        Ok(v) => s.0 == Ok::<Seq<ExprV>, CalcErrorV>(expr_views(v@)) && pos == s.1,
        Err(e) => s.0 == Err::<Seq<ExprV>, CalcErrorV>(e@),
    }
}

impl Parser {
    /// One precedence-climbing step: parse a prefix term, then climb through
    /// the infix operators that bind at least as tightly as `min_bp`.
    pub fn parse_bp(&mut self, min_bp: u8) -> (r: Result<Expression, CalcError>)
        requires
            old(self).wf(),
        ensures
            final(self).wf(),
            final(self).tokens == old(self).tokens,
            final(self).pos >= old(self).pos,
            r is Ok ==> final(self).pos > old(self).pos,
            step_matches(
                r,
                final(self).pos as int,
                sp_parse_bp(old(self).toks(), old(self).pos as int, min_bp as int),
            ),
        decreases old(self).tokens@.len() - old(self).pos, 3int,
    {
        let ghost ts = self.toks();
        let ghost pos0 = self.pos as int;
        let t = self.peek();
        let oc = op_char(&t);
        let mut prefix_case: Option<(char, u8)> = None;
        if let Some(c) = oc {
            if let Some(p) = prefix_binding_power(c) {
                prefix_case = Some((c, p));
            }
        }
        let lhs0: Expression;
        match prefix_case {
            Some((c, pbp)) => {
                let _ = self.bump();
                match self.parse_bp(pbp) {
                    Ok(e) => {
                        lhs0 = Expression::Unary(c, Box::new(e));
                    },
                    Err(err) => {
                        return Err(err);
                    },
                }
            },
            None => {
                match self.parse_primary() {
                    Ok(e) => {
                        lhs0 = e;
                    },
                    Err(err) => {
                        return Err(err);
                    },
                }
            },
        }
        proof {
            assert(sp_parse_bp(ts, pos0, min_bp as int) == sp_infix_climb(
                ts,
                self.pos as int,
                min_bp as int,
                lhs0@,
            ));
        }
        self.infix_climb(min_bp, lhs0)
    }

    /// The climbing loop, one operator per recursive step: consume an infix
    /// operator whose left binding power clears `min_bp`, parse its
    /// right-hand side at its right binding power, and fold a binary node.
    fn infix_climb(&mut self, min_bp: u8, lhs: Expression) -> (r: Result<Expression, CalcError>)
        requires
            old(self).wf(),
        ensures
            final(self).wf(),
            final(self).tokens == old(self).tokens,
            final(self).pos >= old(self).pos,
            step_matches(
                r,
                final(self).pos as int,
                sp_infix_climb(old(self).toks(), old(self).pos as int, min_bp as int, lhs@),
            ),
        decreases old(self).tokens@.len() - old(self).pos, 2int,
    {
        let ghost ts = self.toks();
        let ghost pos0 = self.pos as int;
        let ghost lhs0v = lhs@;
        let nt = self.peek();
        let c: char;
        match op_char(&nt) {
            Some(cc) => {
                c = cc;
            },
            None => {
                return Ok(lhs);
            },
        }
        let lbp: u8;
        let rbp: u8;
        match infix_binding_power(c) {
            Some(bp) => {
                lbp = bp.0;
                rbp = bp.1;
            },
            None => {
                return Ok(lhs);
            },
        }
        if lbp < min_bp {
            return Ok(lhs);
        }
        let _ = self.bump();
        let rhs: Expression;
        match self.parse_bp(rbp) {
            Ok(e) => {
                rhs = e;
            },
            Err(err) => {
                return Err(err);
            },
        }
        let folded = Expression::Binary(c, Box::new(lhs), Box::new(rhs));
        proof {
            assert(sp_infix_climb(ts, pos0, min_bp as int, lhs0v) == sp_infix_climb(
                ts,
                self.pos as int,
                min_bp as int,
                folded@,
            ));
        }
        self.infix_climb(min_bp, folded)
    }

    /// A primary term: a numeric literal, an identifier or function call, or
    /// a parenthesized sub-expression; anything else fails
    /// `ExpectedPrimary`.
    pub fn parse_primary(&mut self) -> (r: Result<Expression, CalcError>)
        requires
            old(self).wf(),
        ensures
            final(self).wf(),
            final(self).tokens == old(self).tokens,
            final(self).pos >= old(self).pos,
            r is Ok ==> final(self).pos > old(self).pos,
            step_matches(
                r,
                final(self).pos as int,
                sp_parse_primary(old(self).toks(), old(self).pos as int),
            ),
        decreases old(self).tokens@.len() - old(self).pos, 1int,
    {
        let ghost ts = self.toks();
        let ghost pos0 = self.pos as int;
        let t = self.peek();
        match t {
            Token::Number(_) => self.parse_number(),
            Token::Ident(name) => {
                let _ = self.bump();
                let t2 = self.peek();
                match t2 {
                    Token::OpenParen => {
                        let _ = self.bump();
                        let t3 = self.peek();
                        if let Token::CloseParen = t3 {
                            let _ = self.bump();
                            let call = Expression::FunctionCall { name, args: Vec::new() };
                            proof {
                                lemma_call_view(&call);
                                assert(expr_views(call->args@) =~= Seq::<ExprV>::empty());
                            }
                            return Ok(call);
                        }
                        let args: Vec<Expression>;
                        match self.parse_args() {
                            Ok(v) => {
                                args = v;
                            },
                            Err(err) => {
                                return Err(err);
                            },
                        }
                        match self.expect(Token::CloseParen) {
                            Ok(u) => {
                                let call = Expression::FunctionCall { name, args };
                                proof {
                                    lemma_call_view(&call);
                                }
                                Ok(call)
                            },
                            Err(err) => Err(err),
                        }
                    },
                    _ => Ok(Expression::Identifier(name)),
                }
            },
            Token::OpenParen => {
                let _ = self.bump();
                let inner: Expression;
                match self.parse_bp(0) {
                    Ok(e) => {
                        inner = e;
                    },
                    Err(err) => {
                        return Err(err);
                    },
                }
                match self.expect(Token::CloseParen) {
                    Ok(u) => Ok(Expression::Parenthesis(Box::new(inner))),
                    Err(err) => Err(err),
                }
            },
            other => Err(CalcError::ExpectedPrimary(other)),
        }
    }

    /// A comma-separated argument list, one expression per recursive step;
    /// the closing parenthesis stays unconsumed.
    fn parse_args(&mut self) -> (r: Result<Vec<Expression>, CalcError>)
        requires
            old(self).wf(),
        ensures
            final(self).wf(),
            final(self).tokens == old(self).tokens,
            final(self).pos >= old(self).pos,
            args_step_matches(
                r,
                final(self).pos as int,
                sp_parse_args(old(self).toks(), old(self).pos as int),
            ),
        decreases old(self).tokens@.len() - old(self).pos, 4int,
    {
        let ghost ts = self.toks();
        let ghost pos0 = self.pos as int;
        let arg: Expression;
        match self.parse_bp(0) {
            Ok(e) => {
                arg = e;
            },
            Err(err) => {
                return Err(err);
            },
        }
        let t = self.peek();
        match t {
            Token::Comma => {
                let _ = self.bump();
                let mut rest: Vec<Expression>;
                match self.parse_args() {
                    Ok(v) => {
                        rest = v;
                    },
                    Err(err) => {
                        return Err(err);
                    },
                }
                let ghost tail = rest@;
                rest.insert(0, arg);
                proof {
                    lemma_expr_views_insert_front(tail, arg);
                }
                Ok(rest)
            },
            _ => {
                let mut single: Vec<Expression> = Vec::new();
                single.push(arg);
                proof {
                    assert(expr_views(single@) =~= seq![arg@]);
                }
                Ok(single)
            },
        }
    }

    /// A numeric literal: an integer token, optionally extended by a decimal
    /// point and a second integer token giving the fractional digits, whose
    /// digit count is the decimal length of its absolute value.
    pub fn parse_number(&mut self) -> (r: Result<Expression, CalcError>)
        requires
            old(self).wf(),
        ensures
            final(self).wf(),
            final(self).tokens == old(self).tokens,
            final(self).pos >= old(self).pos,
            r is Ok ==> final(self).pos > old(self).pos,
            step_matches(
                r,
                final(self).pos as int,
                sp_parse_number(old(self).toks(), old(self).pos as int),
            ),
    {
        let t = self.bump();
        let n: i32;
        match t {
            Token::Number(v) => {
                n = v;
            },
            other => {
                return Err(CalcError::ExpectedNumber(other));
            },
        }
        let t2 = self.peek();
        match t2 {
            Token::DecimalPoint => {
                let _ = self.bump();
                let t3 = self.bump();
                match t3 {
                    Token::Number(frac) => {
                        let digits = decimal_digits(frac);
                        Ok(
                            Expression::Number {
                                integer: n,
                                fraction: frac,
                                fraction_digits: digits,
                            },
                        )
                    },
                    other => Err(CalcError::ExpectedFractionDigits(other)),
                }
            },
            _ => Ok(Expression::Number { integer: n, fraction: 0, fraction_digits: 0 }),
        }
    }

    /// A whole expression: one precedence climb from the lowest threshold.
    pub fn parse_expression(&mut self) -> (r: Result<Expression, CalcError>)
        requires
            old(self).wf(),
        ensures
            final(self).wf(),
            final(self).tokens == old(self).tokens,
            final(self).pos >= old(self).pos,
            step_matches(
                r,
                final(self).pos as int,
                sp_parse_bp(old(self).toks(), old(self).pos as int, 0),
            ),
    {
        self.parse_bp(0)
    }
}

/// Builds the expression tree of a token sequence: one expression parsed by
/// precedence climbing, after which the cursor must stand exactly on the
/// end-of-stream token, else `UnexpectedTokenAfterExpression`.
pub fn parse_tokens(tokens: Vec<Token>) -> (r: Result<Expression, CalcError>)
    ensures
        parse_result_view(r) == sp_parse_tokens(token_views(tokens@)),
{
    let mut parser = Parser { tokens, pos: 0 };
    let e: Expression;
    match parser.parse_expression() {
        Ok(ex) => {
            e = ex;
        },
        Err(err) => {
            return Err(err);
        },
    }
    let t = parser.peek();
    match t {
        Token::EOF => Ok(e),
        other => Err(CalcError::UnexpectedTokenAfterExpression(other)),
    }
}

/// The decimal digit count the parser derives for a fractional part.
fn decimal_digits(frac: i32) -> (d: u32)
    ensures
        d == spec_fraction_digits(frac),
{
    let a: u32 = if frac >= 0 {
        frac as u32
    } else {
        (0i64 - (frac as i64)) as u32
    };
    proof {
        assert(a as nat == abs_i32(frac));
        lemma_dec_len_u32(a as nat);
    }
    decimal_digits_of(a)
}


} // verus!
