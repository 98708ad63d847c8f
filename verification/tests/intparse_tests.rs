use linear_solver::{parse, parse_equation, solve};

fn get(list: &[(char, i32)], k: char) -> Option<i32> {
    list.iter().find(|e| e.0 == k).map(|e| e.1)
}

#[test]
fn scans_integer_coefficients() {
    let m = parse("3x-9z");
    assert_eq!(get(&m, 'x'), Some(3));
    assert_eq!(get(&m, 'z'), Some(-9));
    assert_eq!(m.len(), 2);
}

#[test]
fn bare_variable_counts_as_one() {
    let m = parse("x+2y");
    assert_eq!(get(&m, 'x'), Some(1));
    assert_eq!(get(&m, 'y'), Some(2));
}

#[test]
fn minus_before_variable_is_dropped() {
    // the sign buffer is no integer, so the variable falls back to one
    let m = parse("-x");
    assert_eq!(get(&m, 'x'), Some(1));
}

#[test]
fn trailing_constant_is_collected() {
    let m = parse("3x-5");
    assert_eq!(get(&m, 'x'), Some(3));
    assert_eq!(get(&m, '_'), Some(-5));
}

#[test]
fn repeated_variable_accumulates() {
    let m = parse("2x+3x");
    assert_eq!(get(&m, 'x'), Some(5));
}

#[test]
fn subtracts_right_side_from_left() {
    let m = parse_equation("3x - 9z = 33").unwrap();
    assert_eq!(get(&m, 'x'), Some(3));
    assert_eq!(get(&m, 'z'), Some(-9));
    assert_eq!(get(&m, '_'), Some(-33));
}

#[test]
fn shared_variables_cancel() {
    let m = parse_equation("2x + y = x + y").unwrap();
    assert_eq!(get(&m, 'x'), Some(1));
    assert_eq!(get(&m, 'y'), Some(0));
}

#[test]
fn solve_builds_rows_in_sorted_variable_order() {
    let (coefficients, values) = solve(vec!["3x - 9z = 33", "x + z = 1"]);
    assert_eq!(coefficients, vec![vec![3, -9], vec![1, 1]]);
    assert_eq!(values, vec![33, 1]);
}

#[test]
fn solve_fills_missing_variables_with_zero() {
    let (coefficients, values) = solve(vec!["2a + 3 = 1", "b - 1 = a"]);
    // variables are sorted as a, b
    assert_eq!(coefficients, vec![vec![2, 0], vec![-1, 1]]);
    assert_eq!(values, vec![-2, 1]);
}

#[test]
fn missing_equals_sign_is_rejected() {
    assert_eq!(parse_equation("3x + 1"), Err("Invalid equation"));
    assert_eq!(parse_equation("a = b = c"), Err("Invalid equation"));
}
