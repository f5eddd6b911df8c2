use calculator::builtins::{
    check_function_arity, div_guard, infix_binding_power, is_operator_char, lookup_constant,
    normalize_name, prefix_binding_power,
};
use calculator::CalcError;

#[test]
fn operator_characters_are_exactly_the_table() {
    for ch in ['+', '-', '*', '/', '^'] {
        assert!(is_operator_char(ch));
    }
    for ch in ['%', '!', '=', 'a', '0', ' ', '('] {
        assert!(!is_operator_char(ch));
    }
}

#[test]
fn infix_binding_powers_match_the_precedence_table() {
    assert_eq!(infix_binding_power('+'), Some((10, 11)));
    assert_eq!(infix_binding_power('-'), Some((10, 11)));
    assert_eq!(infix_binding_power('*'), Some((20, 21)));
    assert_eq!(infix_binding_power('/'), Some((20, 21)));
    assert_eq!(infix_binding_power('^'), Some((30, 30)));
    assert_eq!(infix_binding_power('%'), None);
    assert_eq!(infix_binding_power('('), None);
}

#[test]
fn prefix_binding_powers_sit_between_the_bands() {
    assert_eq!(prefix_binding_power('+'), Some(25));
    assert_eq!(prefix_binding_power('-'), Some(25));
    assert_eq!(prefix_binding_power('*'), None);
    assert_eq!(prefix_binding_power('/'), None);
    assert_eq!(prefix_binding_power('^'), None);
    // the prefix precedence lies strictly between multiplication and
    // exponentiation, which drives `-2^2 == -(2^2)` and `-2*3 == (-2)*3`
    let mul = infix_binding_power('*').unwrap().0;
    let pow = infix_binding_power('^').unwrap().0;
    let pre = prefix_binding_power('-').unwrap();
    assert!(mul < pre && pre < pow);
}

#[test]
fn normalize_name_lowercases_ascii_only() {
    assert_eq!(normalize_name("PI"), "pi");
    assert_eq!(normalize_name("SqRt_2"), "sqrt_2");
    assert_eq!(normalize_name("already"), "already");
    assert_eq!(normalize_name("É9"), "É9");
}

#[test]
fn constants_carry_the_double_precision_values() {
    assert_eq!(f64::from_bits(lookup_constant("pi").unwrap()), std::f64::consts::PI);
    assert_eq!(f64::from_bits(lookup_constant("e").unwrap()), std::f64::consts::E);
}

#[test]
fn constant_lookup_is_case_insensitive() {
    assert_eq!(lookup_constant("PI"), lookup_constant("pi"));
    assert_eq!(lookup_constant("Pi"), lookup_constant("pi"));
    assert_eq!(lookup_constant("E"), lookup_constant("e"));
}

#[test]
fn unknown_names_find_no_constant() {
    assert!(lookup_constant("a").is_none());
    assert!(lookup_constant("tau").is_none());
    assert!(lookup_constant("").is_none());
}

#[test]
fn arity_bounds_are_enforced() {
    assert!(check_function_arity("sqrt", 1).is_ok());
    assert_eq!(
        check_function_arity("sqrt", 2).unwrap_err(),
        CalcError::WrongArity { name: String::from("sqrt"), expected: 1, got: 2 }
    );
    assert_eq!(
        check_function_arity("sqrt", 0).unwrap_err(),
        CalcError::WrongArity { name: String::from("sqrt"), expected: 1, got: 0 }
    );
    assert_eq!(
        check_function_arity("max", 0).unwrap_err(),
        CalcError::WrongArity { name: String::from("max"), expected: 1, got: 0 }
    );
    // min and max are variadic upward
    assert!(check_function_arity("min", 1).is_ok());
    assert!(check_function_arity("max", 17).is_ok());
}

#[test]
fn function_lookup_is_case_insensitive_and_keeps_the_spelling() {
    assert!(check_function_arity("SQRT", 1).is_ok());
    assert!(check_function_arity("Max", 3).is_ok());
    // the error carries the name as the caller wrote it
    assert_eq!(
        check_function_arity("SqRt", 2).unwrap_err(),
        CalcError::WrongArity { name: String::from("SqRt"), expected: 1, got: 2 }
    );
}

#[test]
fn unknown_function_names_are_rejected() {
    assert_eq!(
        check_function_arity("foo", 1).unwrap_err(),
        CalcError::UnknownFunction(String::from("foo"))
    );
}

#[test]
fn division_guard_rejects_both_zeros_only() {
    assert_eq!(div_guard((0.0f64).to_bits()).unwrap_err(), CalcError::DivideByZero);
    assert_eq!(div_guard((-0.0f64).to_bits()).unwrap_err(), CalcError::DivideByZero);
    assert!(div_guard((1.0f64).to_bits()).is_ok());
    assert!(div_guard((-2.5f64).to_bits()).is_ok());
    assert!(div_guard(f64::MIN_POSITIVE.to_bits()).is_ok());
    assert!(div_guard((5e-324f64).to_bits()).is_ok());
}
