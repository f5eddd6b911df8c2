use vstd::prelude::*;

pub mod builtins;
pub mod error;
pub mod lexer;
pub mod parser;

pub use error::CalcError;
pub use lexer::Token;
pub use parser::Expression;

use error::CalcErrorV;
use lexer::{spec_tokenize, tokenize};
use parser::{parse_result_view, parse_tokens, sp_parse_tokens, ExprV};

verus! {

/// What `parse` yields: the token sequence of the text, then its expression
/// tree by precedence climbing; the first error of either stage aborts the
/// whole call.
pub open spec fn spec_parse(cs: Seq<char>) -> Result<ExprV, CalcErrorV> {
    match spec_tokenize(cs) {
        Ok(ts) => sp_parse_tokens(ts),
        Err(e) => Err(e),
    }
}

/// Tokenizes the text and builds its expression tree; does not evaluate.
pub fn parse(input: &str) -> (r: Result<Expression, CalcError>)
    ensures
        parse_result_view(r) == spec_parse(input@),
{
    let tokens = match tokenize(input) {
        Ok(v) => v,
        Err(e) => {
            return Err(e);
        },
    };
    parse_tokens(tokens)
}

} // verus!
