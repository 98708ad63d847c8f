use linear_solver::{Expression, SolveError, Term, SCALE};

#[test]
fn parses_mixed_terms_and_merges_constants() {
    let e = Expression::parse("8x + 11 - 3 - 2 + 1").unwrap();
    assert_eq!(e.get_term('x').coefficient, 8 * SCALE);
    assert_eq!(e.get_term('_').coefficient, 7 * SCALE);
}

#[test]
fn leading_sign_belongs_to_first_term() {
    let e = Expression::parse("-3x + 2y").unwrap();
    assert_eq!(e.get_term('x').coefficient, -3 * SCALE);
    assert_eq!(e.get_term('y').coefficient, 2 * SCALE);
}

#[test]
fn leading_space_yields_a_zero_constant_entry() {
    // the run before the sign is blank, and a blank term is a zero constant
    let mut e = Expression::parse(" -3x").unwrap();
    assert_eq!(e.get_term('x').coefficient, -3 * SCALE);
    let removed = e.remove_term('_');
    assert!(removed.is_some());
    assert_eq!(removed.unwrap().coefficient, 0);
}

#[test]
fn merging_same_symbol_adds_coefficients() {
    let mut e = Expression::empty();
    e.add_term(Term::new(3 * SCALE, 'x')).unwrap();
    e.add_term(Term::new(4 * SCALE, 'x')).unwrap();
    assert_eq!(e.get_term('x').coefficient, 7 * SCALE);
}

#[test]
fn merge_order_does_not_matter() {
    let a = Term::new(3 * SCALE, 'x');
    let b = Term::new(-5 * SCALE, 'x');
    let c = Term::new(2 * SCALE, 'y');
    let mut e1 = Expression::empty();
    e1.add_term(a).unwrap();
    e1.add_term(b).unwrap();
    e1.add_term(c).unwrap();
    let mut e2 = Expression::empty();
    e2.add_term(c).unwrap();
    e2.add_term(b).unwrap();
    e2.add_term(a).unwrap();
    for s in ['x', 'y', '_'] {
        assert_eq!(e1.get_term(s).coefficient, e2.get_term(s).coefficient);
    }
}

#[test]
fn new_merges_a_term_list() {
    let e = Expression::new(vec![
        Term::new(SCALE, 'x'),
        Term::new(2 * SCALE, 'y'),
        Term::new(5 * SCALE, 'x'),
    ])
    .unwrap();
    assert_eq!(e.get_term('x').coefficient, 6 * SCALE);
    assert_eq!(e.get_term('y').coefficient, 2 * SCALE);
}

#[test]
fn add_expression_merges_every_term() {
    let mut a = Expression::parse("3x + 1").unwrap();
    let b = Expression::parse("2x - 4y").unwrap();
    a.add_expression(b).unwrap();
    assert_eq!(a.get_term('x').coefficient, 5 * SCALE);
    assert_eq!(a.get_term('y').coefficient, -4 * SCALE);
    assert_eq!(a.get_term('_').coefficient, SCALE);
}

#[test]
fn negate_flips_every_coefficient() {
    let mut e = Expression::parse("3x - 2y + 5").unwrap();
    e.negate();
    assert_eq!(e.get_term('x').coefficient, -3 * SCALE);
    assert_eq!(e.get_term('y').coefficient, 2 * SCALE);
    assert_eq!(e.get_term('_').coefficient, -5 * SCALE);
}

#[test]
fn get_term_of_absent_symbol_is_zero() {
    let e = Expression::parse("3x").unwrap();
    let t = e.get_term('q');
    assert_eq!(t.variable, 'q');
    assert_eq!(t.coefficient, 0);
}

#[test]
fn remove_term_returns_the_entry() {
    let mut e = Expression::parse("3x + 4").unwrap();
    let t = e.remove_term('x').unwrap();
    assert_eq!(t.coefficient, 3 * SCALE);
    assert!(e.remove_term('x').is_none());
    assert_eq!(e.get_term('x').coefficient, 0);
}

#[test]
fn term_error_aborts_expression_parse() {
    assert!(matches!(
        Expression::parse("3x + 4y5"),
        Err(SolveError::CoefficientAfterVariable)
    ));
}

#[test]
fn renders_with_sign_separators() {
    let e = Expression::parse("3x - 9z").unwrap();
    let text: String = e.render().into_iter().collect();
    assert_eq!(text, "3x - 9z");
}
