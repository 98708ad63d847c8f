use vstd::prelude::*;

verus! {

/// Every failure that parsing or assembling a linear system can report.
///
/// Format errors arise while parsing a term or an equation, `OutOfRange`
/// when a coefficient leaves the exact fixed-point range, `CountMismatch`
/// when the number of distinct variables differs from the number of
/// equations.
#[derive(Clone, Copy, Debug, PartialEq, Eq, Structural)]
pub enum SolveError {
    /// A second sign character appeared after the coefficient started.
    TwoOperators,
    /// A second alphabetic character appeared in one term.
    TwoVariables,
    /// A digit appeared after the variable character.
    CoefficientAfterVariable,
    /// A character that is neither digit, sign, point, letter nor space.
    InvalidCharacter,
    /// A coefficient with too many integer or fractional digits, or a merge
    /// whose result leaves the representable fixed-point range.
    OutOfRange,
    /// An equation with no `=` or with more than one.
    MultipleEquals,
    /// The number of distinct variables differs from the number of equations.
    CountMismatch,
}

impl SolveError {
    /// The human-readable message for this failure.
    pub fn message(&self) -> &'static str {
        match self {
            SolveError::TwoOperators => "Cannot have two operators in a term",
            SolveError::TwoVariables => "Cannot have two variables in a term",
            SolveError::CoefficientAfterVariable => "Coefficient must come before variable",
            SolveError::InvalidCharacter => "Invalid character in term",
            SolveError::OutOfRange => "Coefficient out of range",
            SolveError::MultipleEquals => "Invalid equation. Can only have one equals sign.",
            SolveError::CountMismatch => "Number of variables and equations do not match",
        }
    }
}

} // verus!
