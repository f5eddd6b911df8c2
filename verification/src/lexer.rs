use vstd::prelude::*;
use vstd::string::*;

use crate::error::{CalcError, CalcErrorV};

verus! {

/// One lexical unit of an expression. A token sequence is produced once per
/// input string, read left to right, and always ends with exactly one `EOF`.
#[derive(Debug, PartialEq)]
pub enum Token {
    /// A maximal digit run, accumulated into a 32-bit value; runs whose value
    /// would exceed `i32::MAX` saturate to `i32::MAX`.
    Number(i32),
    /// A maximal run of letters, digits and underscores that starts with a
    /// letter or underscore, casing preserved verbatim.
    Ident(String),
    DecimalPoint,
    Comma,
    Plus,
    Minus,
    Mult,
    Div,
    Pow,
    OpenParen,
    CloseParen,
    EOF,
}

/// Mathematical image of `Token`: identifiers become character sequences.
pub enum TokenV {
    Number(i32),
    Ident(Seq<char>),
    DecimalPoint,
    Comma,
    Plus,
    Minus,
    Mult,
    Div,
    Pow,
    OpenParen,
    CloseParen,
    EOF,
}

impl View for Token {
    type V = TokenV;

    open spec fn view(&self) -> TokenV {
        match self {
            Token::Number(n) => TokenV::Number(*n),
            Token::Ident(s) => TokenV::Ident(s@),
            Token::DecimalPoint => TokenV::DecimalPoint,
            Token::Comma => TokenV::Comma,
            Token::Plus => TokenV::Plus,
            Token::Minus => TokenV::Minus,
            Token::Mult => TokenV::Mult,
            Token::Div => TokenV::Div,
            Token::Pow => TokenV::Pow,
            Token::OpenParen => TokenV::OpenParen,
            Token::CloseParen => TokenV::CloseParen,
            Token::EOF => TokenV::EOF,
        }
    }
}

impl Clone for Token {
    fn clone(&self) -> (r: Token)
        ensures
            r == *self,
    {
        match self {
            Token::Number(n) => Token::Number(*n),
            Token::Ident(s) => Token::Ident(s.clone()),
            Token::DecimalPoint => Token::DecimalPoint,
            Token::Comma => Token::Comma,
            Token::Plus => Token::Plus,
            Token::Minus => Token::Minus,
            Token::Mult => Token::Mult,
            Token::Div => Token::Div,
            Token::Pow => Token::Pow,
            Token::OpenParen => Token::OpenParen,
            Token::CloseParen => Token::CloseParen,
            Token::EOF => Token::EOF,
        }
    }
}

/// A letter or underscore: what may start an identifier.
pub open spec fn is_ident_start(c: char) -> bool {
    (('a' as u32) <= (c as u32) && (c as u32) <= ('z' as u32)) || (('A' as u32) <= (c as u32)
        && (c as u32) <= ('Z' as u32)) || c == '_'
}

/// An ASCII decimal digit.
pub open spec fn is_digit_char(c: char) -> bool {
    ('0' as u32) <= (c as u32) && (c as u32) <= ('9' as u32)
}

/// A letter, digit or underscore: what may continue an identifier.
pub open spec fn is_ident_char(c: char) -> bool {
    is_ident_start(c) || is_digit_char(c)
}

/// The numeric value of a digit character.
pub open spec fn digit_of(c: char) -> int {
    (c as u32) - ('0' as u32)
}

/// Length of the maximal identifier run starting at `i`.
pub open spec fn ident_run_len(cs: Seq<char>, i: int) -> nat
    decreases cs.len() - i,
{
    if i < 0 || i >= cs.len() || !is_ident_char(cs[i]) {
        0
    } else {
        1 + ident_run_len(cs, i + 1)
    }
}

/// Length of the maximal digit run starting at `i`.
pub open spec fn digit_run_len(cs: Seq<char>, i: int) -> nat
    decreases cs.len() - i,
{
    if i < 0 || i >= cs.len() || !is_digit_char(cs[i]) {
        0
    } else {
        1 + digit_run_len(cs, i + 1)
    }
}

/// One accumulation step of a digit run: append a digit, saturating at
/// `i32::MAX`.
pub open spec fn saturating_step(acc: int, d: int) -> int {
    if acc * 10 + d > i32::MAX {
        i32::MAX as int
    } else {
        acc * 10 + d
    }
}

/// The value of a digit run, accumulated left to right with saturation at
/// `i32::MAX`.
pub open spec fn digit_run_value(ds: Seq<char>) -> int
    decreases ds.len(),
{
    if ds.len() == 0 {
        0
    } else {
        saturating_step(digit_run_value(ds.drop_last()), digit_of(ds.last()))
    }
}

/// Put one token in front of a tokenization result.
pub open spec fn prepend_token(t: TokenV, r: Result<Seq<TokenV>, CalcErrorV>) -> Result<
    Seq<TokenV>,
    CalcErrorV,
> {
    match r {
        Ok(ts) => Ok(seq![t] + ts),
        Err(e) => Err(e),
    }
}

/// Put a sequence of tokens in front of a tokenization result.
pub open spec fn prepend_tokens(prefix: Seq<TokenV>, r: Result<Seq<TokenV>, CalcErrorV>) -> Result<
    Seq<TokenV>,
    CalcErrorV,
> {
    match r {
        Ok(ts) => Ok(prefix + ts),
        Err(e) => Err(e),
    }
}

/// How many characters remain at position `i`, clamped below at zero.
pub open spec fn remaining(cs: Seq<char>, i: int) -> int {
    if i <= cs.len() {
        cs.len() - i
    } else {
        0
    }
}

/// The token sequence of the characters from position `i` on, or the first
/// lexical error. Whitespace produces no token; the sequence always ends with
/// exactly one `EOF`.
pub open spec fn spec_tokenize_at(cs: Seq<char>, i: int) -> Result<Seq<TokenV>, CalcErrorV>
    decreases remaining(cs, i),
{
    if i < 0 || i >= cs.len() {
        Ok(seq![TokenV::EOF])
    } else {
        let c = cs[i];
        if is_ident_start(c) {
            let n = 1 + ident_run_len(cs, i + 1);
            prepend_token(TokenV::Ident(cs.subrange(i, i + n)), spec_tokenize_at(cs, i + n))
        } else if is_digit_char(c) {
            let n = 1 + digit_run_len(cs, i + 1);
            prepend_token(
                TokenV::Number(digit_run_value(cs.subrange(i, i + n)) as i32),
                spec_tokenize_at(cs, i + n),
            )
        } else if c == '.' {
            prepend_token(TokenV::DecimalPoint, spec_tokenize_at(cs, i + 1))
        } else if c == ',' {
            prepend_token(TokenV::Comma, spec_tokenize_at(cs, i + 1))
        } else if c == '+' {
            prepend_token(TokenV::Plus, spec_tokenize_at(cs, i + 1))
        } else if c == '-' {
            prepend_token(TokenV::Minus, spec_tokenize_at(cs, i + 1))
        } else if c == '*' {
            prepend_token(TokenV::Mult, spec_tokenize_at(cs, i + 1))
        } else if c == '/' {
            prepend_token(TokenV::Div, spec_tokenize_at(cs, i + 1))
        } else if c == '^' {
            prepend_token(TokenV::Pow, spec_tokenize_at(cs, i + 1))
        } else if c == '(' {
            prepend_token(TokenV::OpenParen, spec_tokenize_at(cs, i + 1))
        } else if c == ')' {
            prepend_token(TokenV::CloseParen, spec_tokenize_at(cs, i + 1))
        } else if c == ' ' {
            spec_tokenize_at(cs, i + 1)
        } else {
            Err(CalcErrorV::UnexpectedChar(c))
        }
    }
}

/// The token sequence of a whole input, or its first lexical error.
pub open spec fn spec_tokenize(cs: Seq<char>) -> Result<Seq<TokenV>, CalcErrorV> {
    spec_tokenize_at(cs, 0)
}

/// The views of a sequence of tokens.
pub open spec fn token_views(ts: Seq<Token>) -> Seq<TokenV> {
    ts.map_values(|t: Token| t@)
}

/// The view of a tokenizer result.
pub open spec fn tokenize_result_view(r: Result<Vec<Token>, CalcError>) -> Result<
    Seq<TokenV>,
    CalcErrorV,
> {
    match r {
        Ok(v) => Ok(token_views(v@)),
        Err(e) => Err(e@),
    }
}

proof fn lemma_token_views_push(ts: Seq<Token>, t: Token)
    ensures
        token_views(ts.push(t)) == token_views(ts).push(t@),
{
    assert(token_views(ts.push(t)) =~= token_views(ts).push(t@));
}

proof fn lemma_prepend_tokens_step(
    prefix: Seq<TokenV>,
    t: TokenV,
    r: Result<Seq<TokenV>, CalcErrorV>,
)
    ensures
        prepend_tokens(prefix, prepend_token(t, r)) == prepend_tokens(prefix.push(t), r),
{
    match r {
        Ok(ts) => {
            assert(prefix + (seq![t] + ts) =~= prefix.push(t) + ts);
        },
        Err(_) => {},
    }
}

fn exec_is_ident_start(c: char) -> (b: bool)
    ensures
        b == is_ident_start(c),
{
    let u = c as u32;
    (97 <= u && u <= 122) || (65 <= u && u <= 90) || u == 95
}

fn exec_is_ident_char(c: char) -> (b: bool)
    ensures
        b == is_ident_char(c),
{
    let u = c as u32;
    (97 <= u && u <= 122) || (65 <= u && u <= 90) || (48 <= u && u <= 57) || u == 95
}

fn exec_is_digit_char(c: char) -> (b: bool)
    ensures
        b == is_digit_char(c),
{
    let u = c as u32;
    48 <= u && u <= 57
}

/// Converts raw text into the finite token sequence that the parser consumes,
/// or fails with `UnexpectedChar` on the first character that cannot start a
/// token. Whitespace is skipped; a maximal letter/digit/underscore run
/// starting with a letter or underscore becomes one identifier token; a
/// maximal digit run becomes one integer token saturating at `i32::MAX`;
/// every other accepted character becomes a single-character token. The
/// sequence always ends with exactly one `EOF` token.
pub fn tokenize(input: &str) -> (r: Result<Vec<Token>, CalcError>)
    ensures
        tokenize_result_view(r) == spec_tokenize(input@),
{
    let ghost cs = input@;
    let len = input.unicode_len();
    let mut tokens: Vec<Token> = Vec::new();
    let mut i: usize = 0;
    while i < len
        invariant
            len == cs.len(),
            i <= len,
            cs == input@,
            spec_tokenize(cs) == prepend_tokens(
                token_views(tokens@),
                spec_tokenize_at(cs, i as int),
            ),
        decreases len - i,
    {
        let c = input.get_char(i);
        if exec_is_ident_start(c) {
            let start = i;
            loop
                invariant
                    len == cs.len(),
                    cs == input@,
                    start <= i <= len,
                    ident_run_len(cs, start as int) == (i - start) + ident_run_len(cs, i as int),
                ensures
                    start <= i <= len,
                    ident_run_len(cs, start as int) == i - start,
                decreases len - i,
            {
                if i >= len {
                    break ;
                }
                let k = input.get_char(i);
                if !exec_is_ident_char(k) {
                    break ;
                }
                i += 1;
            }
            let text = input.substring_char(start, i).to_owned();
            proof {
                let n = ident_run_len(cs, start as int) as int;
                assert(is_ident_char(cs[start as int]));
                assert(n >= 1);
                assert(text@ == cs.subrange(start as int, start as int + n));
                assert(spec_tokenize_at(cs, start as int) == prepend_token(
                    TokenV::Ident(text@),
                    spec_tokenize_at(cs, i as int),
                ));
                lemma_prepend_tokens_step(
                    token_views(tokens@),
                    TokenV::Ident(text@),
                    spec_tokenize_at(cs, i as int),
                );
                lemma_token_views_push(tokens@, Token::Ident(text));
            }
            tokens.push(Token::Ident(text));
        } else if exec_is_digit_char(c) {
            let start = i;
            let mut num: i32 = 0;
            loop
                invariant
                    len == cs.len(),
                    cs == input@,
                    start <= i <= len,
                    digit_run_len(cs, start as int) == (i - start) + digit_run_len(cs, i as int),
                    0 <= num <= i32::MAX,
                    num == digit_run_value(cs.subrange(start as int, i as int)),
                ensures
                    start <= i <= len,
                    digit_run_len(cs, start as int) == i - start,
                    0 <= num <= i32::MAX,
                    num == digit_run_value(cs.subrange(start as int, i as int)),
                decreases len - i,
            {
                if i >= len {
                    break ;
                }
                let k = input.get_char(i);
                if !exec_is_digit_char(k) {
                    break ;
                }
                let d = (k as u32 - 48) as i32;
                proof {
                    let pre = cs.subrange(start as int, i as int);
                    let post = cs.subrange(start as int, i as int + 1);
                    assert(post.drop_last() =~= pre);
                    assert(post.last() == cs[i as int]);
                }
                if num > (i32::MAX - d) / 10 {
                    proof {
                        assert(num * 10 + d > i32::MAX) by (nonlinear_arith)
                            requires
                                num > (i32::MAX - d) / 10,
                                0 <= d <= 9,
                                0 <= num,
                        ;
                    }
                    num = i32::MAX;
                } else {
                    proof {
                        assert(num * 10 + d <= i32::MAX) by (nonlinear_arith)
                            requires
                                num <= (i32::MAX - d) / 10,
                                0 <= d <= 9,
                                0 <= num,
                        ;
                    }
                    num = num * 10 + d;
                }
                i += 1;
            }
            proof {
                let n = digit_run_len(cs, start as int) as int;
                assert(is_digit_char(cs[start as int]));
                assert(n >= 1);
                assert(spec_tokenize_at(cs, start as int) == prepend_token(
                    TokenV::Number(num),
                    spec_tokenize_at(cs, i as int),
                ));
                lemma_prepend_tokens_step(
                    token_views(tokens@),
                    TokenV::Number(num),
                    spec_tokenize_at(cs, i as int),
                );
                lemma_token_views_push(tokens@, Token::Number(num));
            }
            tokens.push(Token::Number(num));
        } else if c == ' ' {
            i += 1;
        } else {
            let tok: Token = if c == '.' {
                Token::DecimalPoint
            } else if c == ',' {
                Token::Comma
            } else if c == '+' {
                Token::Plus
            } else if c == '-' {
                Token::Minus
            } else if c == '*' {
                Token::Mult
            } else if c == '/' {
                Token::Div
            } else if c == '^' {
                Token::Pow
            } else if c == '(' {
                Token::OpenParen
            } else if c == ')' {
                Token::CloseParen
            } else {
                proof {
                    assert(spec_tokenize_at(cs, i as int) == Err::<Seq<TokenV>, CalcErrorV>(
                        CalcErrorV::UnexpectedChar(c),
                    ));
                }
                return Err(CalcError::UnexpectedChar(c));
            };
            proof {
                assert(spec_tokenize_at(cs, i as int) == prepend_token(
                    tok@,
                    spec_tokenize_at(cs, i as int + 1),
                ));
                lemma_prepend_tokens_step(
                    token_views(tokens@),
                    tok@,
                    spec_tokenize_at(cs, i as int + 1),
                );
                lemma_token_views_push(tokens@, tok);
            }
            tokens.push(tok);
            i += 1;
        }
    }
    let ghost done = tokens@;
    tokens.push(Token::EOF);
    proof {
        assert(spec_tokenize_at(cs, i as int) == Ok::<Seq<TokenV>, CalcErrorV>(seq![TokenV::EOF]));
        lemma_token_views_push(done, Token::EOF);
        assert(token_views(done) + seq![TokenV::EOF] =~= token_views(done).push(TokenV::EOF));
    }
    Ok(tokens)
}

/// The plain decimal value of a digit run, with no saturation.
pub open spec fn digit_run_plain_value(ds: Seq<char>) -> int
    decreases ds.len(),
{
    if ds.len() == 0 {
        0
    } else {
        digit_run_plain_value(ds.drop_last()) * 10 + digit_of(ds.last())
    }
}

/// What saturation means: the value of a digit run is its plain decimal
/// value wherever that fits in 32 signed bits, and `i32::MAX` wherever it
/// does not.
pub proof fn lemma_digit_run_value_saturates(ds: Seq<char>)
    requires
        forall|k: int| 0 <= k < ds.len() ==> is_digit_char(ds[k]),
    ensures
        digit_run_plain_value(ds) >= 0,
        digit_run_value(ds) == if digit_run_plain_value(ds) > i32::MAX {
            i32::MAX as int
        } else {
            digit_run_plain_value(ds)
        },
    decreases ds.len(),
{
    if ds.len() > 0 {
        let pre = ds.drop_last();
        lemma_digit_run_value_saturates(pre);
        let d = digit_of(ds.last());
        assert(0 <= d <= 9);
        if digit_run_plain_value(pre) > i32::MAX {
            assert(digit_run_plain_value(pre) * 10 + d > i32::MAX * 10) by (nonlinear_arith)
                requires
                    digit_run_plain_value(pre) > i32::MAX,
                    d >= 0,
            ;
        }
    }
}

proof fn lemma_tokenize_at_ends_with_eof(cs: Seq<char>, i: int, ts: Seq<TokenV>)
    requires
        spec_tokenize_at(cs, i) == Ok::<Seq<TokenV>, CalcErrorV>(ts),
    ensures
        ts.len() >= 1,
        ts.last() == TokenV::EOF,
        forall|k: int| 0 <= k < ts.len() - 1 ==> ts[k] != TokenV::EOF,
    decreases remaining(cs, i),
{
    if i < 0 || i >= cs.len() {
        assert(ts =~= seq![TokenV::EOF]);
    } else {
        let c = cs[i];
        if is_ident_start(c) {
            let n = 1 + ident_run_len(cs, i + 1);
            let rest = spec_tokenize_at(cs, i + n);
            lemma_tokenize_at_ends_with_eof(cs, i + n, rest->Ok_0);
            assert(ts == seq![TokenV::Ident(cs.subrange(i, i + n))] + rest->Ok_0);
        } else if is_digit_char(c) {
            let n = 1 + digit_run_len(cs, i + 1);
            let rest = spec_tokenize_at(cs, i + n);
            lemma_tokenize_at_ends_with_eof(cs, i + n, rest->Ok_0);
            assert(ts == seq![
                TokenV::Number(digit_run_value(cs.subrange(i, i + n)) as i32),
            ] + rest->Ok_0);
        } else if c == ' ' {
            lemma_tokenize_at_ends_with_eof(cs, i + 1, ts);
        } else {
            let rest = spec_tokenize_at(cs, i + 1);
            lemma_tokenize_at_ends_with_eof(cs, i + 1, rest->Ok_0);
        }
    }
}

/// A successful tokenization ends with exactly one end-of-stream token: the
/// last token is `EOF`, and no token before it is.
pub proof fn lemma_tokenize_ends_with_eof(cs: Seq<char>, ts: Seq<TokenV>)
    requires
        spec_tokenize(cs) == Ok::<Seq<TokenV>, CalcErrorV>(ts),
    ensures
        ts.len() >= 1,
        ts.last() == TokenV::EOF,
        forall|k: int| 0 <= k < ts.len() - 1 ==> ts[k] != TokenV::EOF,
{
    lemma_tokenize_at_ends_with_eof(cs, 0, ts);
}

/// The tokenizer under the name the surrounding program calls it by: turns
/// one line of input into tokens, exactly as `tokenize` does.
pub fn parse_input(input: &str) -> (r: Result<Vec<Token>, CalcError>)
    ensures
        tokenize_result_view(r) == spec_tokenize(input@),
{
    tokenize(input)
}

} // verus!
