use linear_solver::{SolveError, Term, SCALE};

fn chars_to_string(v: Vec<char>) -> String {
    v.into_iter().collect()
}

#[test]
fn parses_signed_coefficient_and_variable() {
    let t = Term::parse("-3x").unwrap();
    assert_eq!(t.variable, 'x');
    assert_eq!(t.coefficient, -3 * SCALE);
}

#[test]
fn parses_bare_variable_as_one() {
    let t = Term::parse("x").unwrap();
    assert_eq!(t.variable, 'x');
    assert_eq!(t.coefficient, SCALE);
}

#[test]
fn parses_minus_variable_as_minus_one() {
    let t = Term::parse("-x").unwrap();
    assert_eq!(t.variable, 'x');
    assert_eq!(t.coefficient, -SCALE);
}

#[test]
fn parses_plain_constant() {
    let t = Term::parse("7").unwrap();
    assert_eq!(t.variable, '_');
    assert!(t.is_constant());
    assert_eq!(t.coefficient, 7 * SCALE);
}

#[test]
fn bare_minus_is_a_zero_constant() {
    let t = Term::parse("-").unwrap();
    assert_eq!(t.variable, '_');
    assert_eq!(t.coefficient, 0);
}

#[test]
fn parses_decimal_coefficient() {
    let t = Term::parse("3.5y").unwrap();
    assert_eq!(t.variable, 'y');
    assert_eq!(t.coefficient, 3 * SCALE + SCALE / 2);
}

#[test]
fn parses_leading_decimal_point() {
    let t = Term::parse("-.5x").unwrap();
    assert_eq!(t.coefficient, -SCALE / 2);
}

#[test]
fn whitespace_is_ignored() {
    let t = Term::parse(" - 3 x ").unwrap();
    assert_eq!(t.variable, 'x');
    assert_eq!(t.coefficient, -3 * SCALE);
}

#[test]
fn malformed_number_falls_back_to_one() {
    // two decimal points make the buffer unparseable; the documented
    // fallback for a variable term is coefficient one
    let t = Term::parse("1.2.3x").unwrap();
    assert_eq!(t.variable, 'x');
    assert_eq!(t.coefficient, SCALE);
}

#[test]
fn digit_after_variable_is_an_error() {
    assert_eq!(Term::parse("3x4"), Err(SolveError::CoefficientAfterVariable));
}

#[test]
fn two_variables_is_an_error() {
    assert_eq!(Term::parse("3xy"), Err(SolveError::TwoVariables));
}

#[test]
fn two_operators_is_an_error() {
    assert_eq!(Term::parse("3-"), Err(SolveError::TwoOperators));
}

#[test]
fn invalid_character_is_an_error() {
    assert_eq!(Term::parse("3@x"), Err(SolveError::InvalidCharacter));
}

#[test]
fn too_many_fractional_digits_is_out_of_range() {
    assert_eq!(Term::parse("0.0000000000001x"), Err(SolveError::OutOfRange));
}

#[test]
fn too_many_integer_digits_is_out_of_range() {
    assert_eq!(
        Term::parse("1000000000000000000000000x"),
        Err(SolveError::OutOfRange)
    );
}

#[test]
fn renders_decimal_coefficient() {
    let t = Term::new(3 * SCALE + SCALE / 2, 'x');
    assert_eq!(chars_to_string(t.render()), "3.5x");
}

#[test]
fn renders_unit_coefficients_bare() {
    assert_eq!(chars_to_string(Term::new(SCALE, 'x').render()), "x");
    assert_eq!(chars_to_string(Term::new(-SCALE, 'x').render()), "-x");
}

#[test]
fn renders_negative_constant() {
    assert_eq!(chars_to_string(Term::constant(-7 * SCALE).render()), "-7");
}

#[test]
fn parse_is_inverse_of_render() {
    for text in ["-3x", "3.5y", "x", "-x", "7", "-0.25z", "12.875q"] {
        let t = Term::parse(text).unwrap();
        let rendered = chars_to_string(t.render());
        let back = Term::parse(&rendered).unwrap();
        assert_eq!(back.variable, t.variable);
        assert_eq!(back.coefficient, t.coefficient);
    }
}

#[test]
fn negate_flips_the_sign() {
    let mut t = Term::new(2 * SCALE, 'a');
    t.negate();
    assert_eq!(t.coefficient, -2 * SCALE);
    let u = t.get_negated();
    assert_eq!(u.coefficient, 2 * SCALE);
    assert_eq!(u.variable, 'a');
}

#[test]
fn same_variable_comparison() {
    let a = Term::new(SCALE, 'a');
    let b = Term::new(2 * SCALE, 'a');
    let c = Term::new(SCALE, 'b');
    assert!(a.is_same_variable(&b));
    assert!(!a.is_same_variable(&c));
}

#[test]
fn error_messages_match() {
    assert_eq!(
        SolveError::TwoOperators.message(),
        "Cannot have two operators in a term"
    );
    assert_eq!(
        SolveError::TwoVariables.message(),
        "Cannot have two variables in a term"
    );
    assert_eq!(
        SolveError::CoefficientAfterVariable.message(),
        "Coefficient must come before variable"
    );
    assert_eq!(SolveError::InvalidCharacter.message(), "Invalid character in term");
    assert_eq!(
        SolveError::MultipleEquals.message(),
        "Invalid equation. Can only have one equals sign."
    );
    assert_eq!(
        SolveError::CountMismatch.message(),
        "Number of variables and equations do not match"
    );
}
