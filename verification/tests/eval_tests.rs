// Evaluation itself works on 64-bit floats and lives outside the verified
// library; these tests walk the parsed tree the same way the surrounding
// program does, routing every decision (constant lookup, arity bounds, the
// division guard) through the library.

use calculator::builtins::{check_function_arity, div_guard, lookup_constant, normalize_name};
use calculator::{parse, CalcError, Expression};

fn eval_prefix(op: char, value: f64) -> Result<f64, CalcError> {
    match op {
        '+' => Ok(value),
        '-' => Ok(-value),
        _ => Err(CalcError::UnknownFunction(op.to_string())),
    }
}

fn eval_infix(op: char, left: f64, right: f64) -> Result<f64, CalcError> {
    match op {
        '+' => Ok(left + right),
        '-' => Ok(left - right),
        '*' => Ok(left * right),
        '/' => {
            div_guard(right.to_bits())?;
            Ok(left / right)
        }
        '^' => Ok(left.powf(right)),
        _ => Err(CalcError::UnknownFunction(op.to_string())),
    }
}

fn eval_function(name: &str, args: &[f64]) -> Result<f64, CalcError> {
    check_function_arity(name, args.len())?;
    let normalized = normalize_name(name);
    match normalized.as_str() {
        "sqrt" => Ok(args[0].sqrt()),
        "min" => Ok(args[1..].iter().fold(args[0], |best, v| best.min(*v))),
        "max" => Ok(args[1..].iter().fold(args[0], |best, v| best.max(*v))),
        _ => Err(CalcError::UnknownFunction(name.to_string())),
    }
}

fn eval_expression(expr: &Expression) -> Result<f64, CalcError> {
    match expr {
        Expression::Number { integer, fraction, fraction_digits } => {
            Ok(*integer as f64 + (*fraction as f64) / 10f64.powi(*fraction_digits as i32))
        }
        Expression::Identifier(name) => match lookup_constant(name) {
            Some(bits) => Ok(f64::from_bits(bits)),
            None => Err(CalcError::UnknownIdentifier(name.clone())),
        },
        Expression::Unary(op, operand) => eval_prefix(*op, eval_expression(operand)?),
        Expression::Binary(op, left, right) => {
            let l = eval_expression(left)?;
            let r = eval_expression(right)?;
            eval_infix(*op, l, r)
        }
        Expression::FunctionCall { name, args } => {
            let mut values = Vec::new();
            for arg in args {
                values.push(eval_expression(arg)?);
            }
            eval_function(name, &values)
        }
        Expression::Parenthesis(inner) => eval_expression(inner),
    }
}

fn eval(input: &str) -> Result<f64, CalcError> {
    let expr = parse(input)?;
    eval_expression(&expr)
}

fn assert_close(actual: f64, expected: f64) {
    assert!(
        (actual - expected).abs() < 1e-10,
        "expected {expected}, got {actual}"
    );
}

#[test]
fn test_pemdas_mul_before_add() {
    assert_eq!(eval("1+2*3").unwrap(), 7.0);
}

#[test]
fn test_pemdas_parentheses_override() {
    assert_eq!(eval("(1+2)*3").unwrap(), 9.0);
}

#[test]
fn test_pemdas_power_right_associative() {
    assert_eq!(eval("2^3^2").unwrap(), 512.0);
}

#[test]
fn test_pemdas_unary_minus_with_power() {
    assert_eq!(eval("-2^2").unwrap(), -4.0);
    assert_eq!(eval("(-2)^2").unwrap(), 4.0);
}

#[test]
fn test_error_divide_by_zero() {
    assert_eq!(eval("1/0").unwrap_err(), CalcError::DivideByZero);
}

#[test]
fn test_error_unknown_identifier() {
    assert_eq!(eval("a").unwrap_err(), CalcError::UnknownIdentifier("a".to_string()));
}

#[test]
fn test_eval_sqrt() {
    assert_close(eval("sqrt(9)").unwrap(), 3.0);
    assert_close(eval("sqrt(1+3)").unwrap(), 2.0);
}

#[test]
fn test_eval_constants() {
    assert_close(eval("pi").unwrap(), std::f64::consts::PI);
    assert_close(eval("e").unwrap(), std::f64::consts::E);
    assert_close(eval("2*pi").unwrap(), 2.0 * std::f64::consts::PI);
}

#[test]
fn test_eval_multi_arg_functions() {
    assert_close(eval("max(1,2,3,2)").unwrap(), 3.0);
    assert_close(eval("min(1,2,3,2)").unwrap(), 1.0);
    assert_close(eval("max(1+2, 2*3, 4^2)").unwrap(), 16.0);
}

#[test]
fn test_error_wrong_arity() {
    assert_eq!(
        eval("sqrt(1,2)").unwrap_err(),
        CalcError::WrongArity {
            name: "sqrt".to_string(),
            expected: 1,
            got: 2
        }
    );
    assert_eq!(
        eval("max()").unwrap_err(),
        CalcError::WrongArity {
            name: "max".to_string(),
            expected: 1,
            got: 0
        }
    );
}

#[test]
fn constant_names_evaluate_case_insensitively() {
    assert_eq!(eval("PI").unwrap(), eval("pi").unwrap());
    assert_eq!(eval("E").unwrap(), eval("e").unwrap());
    assert_eq!(eval("Pi").unwrap(), eval("pi").unwrap());
}

#[test]
fn parsing_once_and_evaluating_agrees_with_eval() {
    for input in ["1+2*3", "(1+2)*3", "-2^2", "max(1,2,3,2)", "sqrt(9)", "2*pi", "1.05"] {
        let two_step = eval_expression(&parse(input).unwrap()).unwrap();
        assert_eq!(eval(input).unwrap(), two_step);
    }
}

#[test]
fn fractions_follow_the_digit_count_rule() {
    assert_eq!(eval("1.5").unwrap(), 1.5);
    assert_eq!(eval("2.25").unwrap(), 2.25);
    // the fraction's leading zero is lost at tokenization, so one digit
    assert_eq!(eval("1.05").unwrap(), 1.5);
}

#[test]
fn division_of_nonzero_values_succeeds() {
    assert_eq!(eval("7/2").unwrap(), 3.5);
    assert_eq!(eval("1/(2-2)").unwrap_err(), CalcError::DivideByZero);
}
