use linear_solver::{Equation, SolveError, SCALE};

#[test]
fn splits_sides_with_correct_signs() {
    let q = Equation::parse("3x - 9z = 33").unwrap();
    assert_eq!(q.lhs.get_term('x').coefficient, 3 * SCALE);
    assert_eq!(q.lhs.get_term('z').coefficient, -9 * SCALE);
    assert_eq!(q.rhs.get_term('_').coefficient, 33 * SCALE);
}

#[test]
fn zero_or_two_equals_signs_are_errors() {
    assert!(matches!(Equation::parse("3x + 1"), Err(SolveError::MultipleEquals)));
    assert!(matches!(
        Equation::parse("x = y = z"),
        Err(SolveError::MultipleEquals)
    ));
}

#[test]
fn side_errors_propagate() {
    assert!(matches!(
        Equation::parse("3xy = 1"),
        Err(SolveError::TwoVariables)
    ));
}

#[test]
fn equate_to_zero_merges_both_sides() {
    let q = Equation::parse("2x + 1 = x + 3").unwrap();
    let z = q.equate_to_zero().unwrap();
    assert_eq!(z.get_term('x').coefficient, SCALE);
    assert_eq!(z.get_term('_').coefficient, -2 * SCALE);
}

#[test]
fn equate_to_zero_vanishes_under_a_solution() {
    // x = 2 satisfies 2x + 1 = x + 3; the zeroed expression evaluates to 0
    let q = Equation::parse("2x + 1 = x + 3").unwrap();
    let z = q.equate_to_zero().unwrap();
    let x = 2_i128;
    let value = z.get_term('x').coefficient * x + z.get_term('_').coefficient;
    assert_eq!(value, 0);
}

#[test]
fn normalization_moves_variables_left_and_constant_right() {
    let q = Equation::parse("8x + 11 = x + 4y + z - 3 - 2 + 1").unwrap();
    let canon = q.move_variables_to_lhs().unwrap();
    assert_eq!(canon.lhs.get_term('x').coefficient, 7 * SCALE);
    assert_eq!(canon.lhs.get_term('y').coefficient, -4 * SCALE);
    assert_eq!(canon.lhs.get_term('z').coefficient, -SCALE);
    assert_eq!(canon.rhs.get_term('_').coefficient, -15 * SCALE);
}

#[test]
fn normalization_handles_missing_constant() {
    let q = Equation::parse("3x = 2y").unwrap();
    let canon = q.move_variables_to_lhs().unwrap();
    assert_eq!(canon.lhs.get_term('x').coefficient, 3 * SCALE);
    assert_eq!(canon.lhs.get_term('y').coefficient, -2 * SCALE);
    assert_eq!(canon.rhs.get_term('_').coefficient, 0);
}

#[test]
fn normalization_is_idempotent() {
    let q = Equation::parse("3x - 9z = 33").unwrap();
    let once = q.move_variables_to_lhs().unwrap();
    let twice = once.move_variables_to_lhs().unwrap();
    for s in ['x', 'z'] {
        assert_eq!(
            once.lhs.get_term(s).coefficient,
            twice.lhs.get_term(s).coefficient
        );
    }
    assert_eq!(
        once.rhs.get_term('_').coefficient,
        twice.rhs.get_term('_').coefficient
    );
}

#[test]
fn renders_both_sides() {
    let q = Equation::parse("3x - 9z = 33").unwrap();
    let text: String = q.render().into_iter().collect();
    assert_eq!(text, "3x - 9z = 33");
}
