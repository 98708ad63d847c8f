use linear_solver::{LinearEquations, SolveError, SCALE};
use nalgebra::DMatrix;

fn solve_assembled(system: &LinearEquations) -> Option<Vec<(char, f64)>> {
    let problem = system.assemble().ok()?;
    let n = problem.matrix.len();
    let scale = SCALE as f64;
    let coefficients: DMatrix<f64> =
        DMatrix::from_fn(n, n, |i, j| problem.matrix[i][j] as f64 / scale);
    let values: DMatrix<f64> = DMatrix::from_fn(n, 1, |i, _j| problem.constants[i] as f64 / scale);
    let inverse = coefficients.try_inverse()?;
    let result = inverse * values;
    Some(
        problem
            .variables
            .iter()
            .enumerate()
            .map(|(i, v)| (*v, result[(i, 0)]))
            .collect(),
    )
}

#[test]
fn solves_a_three_variable_system() {
    let system = LinearEquations::from_vec(vec![
        "4x - 3y - 2z = 5",
        "-2x - y - z = -4",
        "-7x - 5y - 7z = -31",
    ])
    .unwrap();
    let solution = solve_assembled(&system).unwrap();
    assert_eq!(solution.len(), 3);
    assert_eq!(solution[0].0, 'x');
    assert_eq!(solution[1].0, 'y');
    assert_eq!(solution[2].0, 'z');
    assert!((solution[0].1 - 1.0).abs() < 1e-9);
    assert!((solution[1].1 - -5.0).abs() < 1e-9);
    assert!((solution[2].1 - 7.0).abs() < 1e-9);
}

#[test]
fn assembles_signed_coefficients_in_sorted_order() {
    let system = LinearEquations::from_vec(vec!["3x - 9z = 33", "x + z = 1"]).unwrap();
    let problem = system.assemble().unwrap();
    assert_eq!(problem.variables, vec!['x', 'z']);
    assert_eq!(problem.matrix[0], vec![3 * SCALE, -9 * SCALE]);
    assert_eq!(problem.constants[0], 33 * SCALE);
}

#[test]
fn more_variables_than_equations_is_a_count_mismatch() {
    let system = LinearEquations::from_vec(vec!["x + y + z = 1", "x - y = 0"]).unwrap();
    assert!(matches!(system.assemble(), Err(SolveError::CountMismatch)));
}

#[test]
fn identical_equations_are_not_invertible() {
    let system = LinearEquations::from_vec(vec!["x + y = 2", "x + y = 2"]).unwrap();
    // the system is square, so assembly succeeds; the singular matrix is
    // rejected by the inversion step
    assert!(system.assemble().is_ok());
    assert!(solve_assembled(&system).is_none());
}

#[test]
fn variable_lists_are_deduplicated_and_sorted() {
    let system = LinearEquations::from_vec(vec!["b + a = 1", "c - a = 2"]).unwrap();
    let mut unsorted = system.get_variables_list();
    unsorted.sort();
    assert_eq!(unsorted, vec!['a', 'b', 'c']);
    assert_eq!(system.get_sorted_variables_list(), vec!['a', 'b', 'c']);
}

#[test]
fn from_vec_reports_the_failing_line() {
    let r = LinearEquations::from_vec(vec!["x = 1", "y == 2"]);
    assert!(matches!(r, Err((1, SolveError::MultipleEquals))));
}

#[test]
fn constants_on_both_sides_move_right() {
    let system = LinearEquations::from_vec(vec!["2x + 3 = 9"]).unwrap();
    let problem = system.assemble().unwrap();
    assert_eq!(problem.variables, vec!['x']);
    assert_eq!(problem.matrix[0], vec![2 * SCALE]);
    assert_eq!(problem.constants[0], 6 * SCALE);
}
