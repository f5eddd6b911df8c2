use vstd::prelude::*;
use vstd::string::*;

use crate::error::{CalcError, CalcErrorV};

verus! {

/// IEEE 754 binary64 bit pattern of the circle constant pi.
pub const PI_BITS: u64 = 0x400921FB54442D18;

/// IEEE 754 binary64 bit pattern of Euler's number e.
pub const E_BITS: u64 = 0x4005BF0A8B145769;

/// The lowercase image of one character: ASCII capital letters move down to
/// their small counterparts, every other character stays as it is.
pub open spec fn lower_char(c: char) -> char {
    if ('A' as u32) <= (c as u32) && (c as u32) <= ('Z' as u32) {
        ((c as u32) + 32) as char
    } else {
        c
    }
}

/// The lowercase image of a character sequence.
pub open spec fn lower_seq(s: Seq<char>) -> Seq<char> {
    s.map_values(|c: char| lower_char(c))
}

/// Relies on str::to_ascii_lowercase: ASCII capital letters are replaced by
/// their lowercase counterparts and every other character is kept unchanged.
#[verifier::external_body]
pub fn normalize_name(name: &str) -> (r: String)
    ensures
        r@ == lower_seq(name@),
{
    name.to_ascii_lowercase()
}

/// The constant table, keyed by lowercase name: the value each name stands
/// for, as an IEEE 754 binary64 bit pattern, or `None` for every other name.
pub open spec fn spec_constant(name: Seq<char>) -> Option<u64> {
    if lower_seq(name) == "pi"@ {
        Some(PI_BITS)
    } else if lower_seq(name) == "e"@ {
        Some(E_BITS)
    } else {
        None
    }
}

/// Case-insensitive constant lookup. The returned value is the constant's
/// IEEE 754 binary64 bit pattern; callers recover the number with
/// `f64::from_bits`.
pub fn lookup_constant(name: &str) -> (r: Option<u64>)
    ensures
        r == spec_constant(name@),
{
    let n = normalize_name(name);
    let pi_name = String::from_str("pi");
    let e_name = String::from_str("e");
    if n == pi_name {
        Some(PI_BITS)
    } else if n == e_name {
        Some(E_BITS)
    } else {
        None
    }
}

/// The function table, keyed by lowercase name: the minimum arity and the
/// optional maximum arity (`None` meaning variadic) of each registered
/// function, or `None` for every other name.
pub open spec fn spec_function_arity(name: Seq<char>) -> Option<(nat, Option<nat>)> {
    if name == "sqrt"@ {
        Some((1nat, Some(1nat)))
    } else if name == "min"@ {
        Some((1nat, None))
    } else if name == "max"@ {
        Some((1nat, None))
    } else {
        None
    }
}

/// What checking a function call's name and argument count must yield: an
/// unregistered name fails `UnknownFunction`; a count below the minimum
/// arity fails `WrongArity` carrying the minimum; a count above a defined
/// maximum fails `WrongArity` carrying the maximum; anything else passes.
/// The errors carry the name as the caller wrote it.
pub open spec fn spec_check_arity(name: Seq<char>, got: nat) -> Result<(), CalcErrorV> {
    match spec_function_arity(lower_seq(name)) {
        None => Err(CalcErrorV::UnknownFunction(name)),
        Some((min_arity, max_arity)) => {
            if got < min_arity {
                Err(CalcErrorV::WrongArity { name, expected: min_arity, got })
            } else {
                match max_arity {
                    Some(m) => {
                        if got > m {
                            Err(CalcErrorV::WrongArity { name, expected: m, got })
                        } else {
                            Ok(())
                        }
                    },
                    None => Ok(()),
                }
            }
        },
    }
}

/// The view of an arity check result.
pub open spec fn arity_result_view(r: Result<(), CalcError>) -> Result<(), CalcErrorV> {
    match r {
        Ok(u) => Ok(u),
        Err(e) => Err(e@),
    }
}

/// Checks a function call against the registry before its rule is applied:
/// the name is looked up case-insensitively, and the argument count is held
/// to the function's arity bounds.
pub fn check_function_arity(name: &str, got: usize) -> (r: Result<(), CalcError>)
    ensures
        arity_result_view(r) == spec_check_arity(name@, got as nat),
{
    let n = normalize_name(name);
    let sqrt_name = String::from_str("sqrt");
    let min_name = String::from_str("min");
    let max_name = String::from_str("max");
    let min_arity: usize;
    let max_arity: Option<usize>;
    if n == sqrt_name {
        min_arity = 1;
        max_arity = Some(1);
    } else if n == min_name {
        min_arity = 1;
        max_arity = None;
    } else if n == max_name {
        min_arity = 1;
        max_arity = None;
    } else {
        return Err(CalcError::UnknownFunction(name.to_owned()));
    }
    if got < min_arity {
        return Err(CalcError::WrongArity { name: name.to_owned(), expected: min_arity, got });
    }
    match max_arity {
        Some(m) => {
            if got > m {
                Err(CalcError::WrongArity { name: name.to_owned(), expected: m, got })
            } else {
                Ok(())
            }
        },
        None => Ok(()),
    }
}

/// Whether a character is one of the registered operator symbols.
pub open spec fn spec_is_operator_char(c: char) -> bool {
    c == '+' || c == '-' || c == '*' || c == '/' || c == '^'
}

/// Whether a character identifies an entry of the operator table.
pub fn is_operator_char(ch: char) -> (b: bool)
    ensures
        b == spec_is_operator_char(ch),
{
    ch == '+' || ch == '-' || ch == '*' || ch == '/' || ch == '^'
}

/// The infix binding powers of the operator table. Addition and subtraction
/// sit at precedence 10, multiplication and division at 20, both
/// left-associative, so their right binding power is one above their left;
/// exponentiation sits at 30 and is right-associative, so both its binding
/// powers are 30. Symbols without an infix form have no entry.
pub open spec fn spec_infix_binding_power(c: char) -> Option<(u8, u8)> {
    if c == '+' || c == '-' {
        Some((10u8, 11u8))
    } else if c == '*' || c == '/' {
        Some((20u8, 21u8))
    } else if c == '^' {
        Some((30u8, 30u8))
    } else {
        None
    }
}

/// The `(left, right)` binding power pair the parser climbs with, or `None`
/// where the symbol has no infix form.
pub fn infix_binding_power(op: char) -> (r: Option<(u8, u8)>)
    ensures
        r == spec_infix_binding_power(op),
{
    if op == '+' || op == '-' {
        Some((10, 11))
    } else if op == '*' || op == '/' {
        Some((20, 21))
    } else if op == '^' {
        Some((30, 30))
    } else {
        None
    }
}

/// The prefix binding powers of the operator table: unary plus and minus
/// bind at 25, strictly between the multiplicative band and exponentiation,
/// which is what makes `-2^2` parse as `-(2^2)` while `-2*3` parses as
/// `(-2)*3`. Symbols without a prefix form have no entry.
pub open spec fn spec_prefix_binding_power(c: char) -> Option<u8> {
    if c == '+' || c == '-' {
        Some(25u8)
    } else {
        None
    }
}

/// The prefix binding power of a symbol, or `None` where it has no prefix
/// form.
pub fn prefix_binding_power(op: char) -> (r: Option<u8>)
    ensures
        r == spec_prefix_binding_power(op),
{
    if op == '+' || op == '-' {
        Some(25)
    } else {
        None
    }
}

/// Whether an IEEE 754 binary64 bit pattern encodes a zero (+0.0 or -0.0):
/// everything but the sign bit is clear. These are exactly the doubles that
/// compare equal to 0.0.
pub open spec fn is_zero_bits(bits: u64) -> bool {
    bits & 0x7FFF_FFFF_FFFF_FFFF == 0
}

/// The division rule's guard: division fails with `DivideByZero` exactly
/// when the right operand is zero. The denominator is given as the IEEE 754
/// binary64 bit pattern of the already-evaluated operand.
pub fn div_guard(denominator_bits: u64) -> (r: Result<(), CalcError>)
    ensures
        r == if is_zero_bits(denominator_bits) {
            Err::<(), CalcError>(CalcError::DivideByZero)
        } else {
            Ok::<(), CalcError>(())
        },
{
    if denominator_bits & 0x7FFF_FFFF_FFFF_FFFF == 0 {
        Err(CalcError::DivideByZero)
    } else {
        Ok(())
    }
}

/// Lowercasing is idempotent: a second pass changes nothing.
proof fn lemma_lower_seq_idempotent(s: Seq<char>)
    ensures
        lower_seq(lower_seq(s)) == lower_seq(s),
{
    assert forall|i: int| 0 <= i < s.len() implies lower_char(lower_char(s[i])) == lower_char(
        s[i],
    ) by {
        let c = s[i];
        if ('A' as u32) <= (c as u32) && (c as u32) <= ('Z' as u32) {
            assert((lower_char(c) as u32) == (c as u32) + 32);
        }
    }
    assert(lower_seq(lower_seq(s)) =~= lower_seq(s));
}

/// Constant lookup is case-insensitive: a name and its lowercase image
/// resolve to the same table entry, so any two spellings with the same
/// lowercase image agree.
pub proof fn lemma_constant_lookup_case_insensitive(name: Seq<char>)
    ensures
        spec_constant(name) == spec_constant(lower_seq(name)),
{
    lemma_lower_seq_idempotent(name);
}

/// Function lookup is case-insensitive in the same way: whether a call
/// passes the arity check depends on the name only through its lowercase
/// image (the errors still carry the name as it was written).
pub proof fn lemma_function_lookup_case_insensitive(name: Seq<char>, got: nat)
    ensures
        spec_check_arity(name, got) is Ok <==> spec_check_arity(lower_seq(name), got) is Ok,
{
    lemma_lower_seq_idempotent(name);
}

} // verus!
