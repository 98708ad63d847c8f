//! Parsing and exact normalization of textual linear equations.
//!
//! Equations such as `"4x - 3y - 2z = 5"` are tokenized into signed
//! coefficient/variable terms, merged into expressions with at most one term
//! per symbol, normalized into the canonical "variables left, constant right"
//! form, and assembled into a coefficient matrix and constant vector with a
//! deterministic (sorted) variable ordering.  Coefficients are exact decimal
//! fixed-point numbers: an `i128` count of units of `10^-12`.  The final
//! inversion of the assembled matrix is a floating-point step that an
//! unverified caller performs on the assembled data.

use vstd::prelude::*;

mod equation;
mod error;
mod expression;
mod intparse;
mod linear_system;
mod term;

pub use equation::Equation;
pub use error::SolveError;
pub use expression::Expression;
pub use intparse::parse;
pub use intparse::parse_equation;
pub use intparse::solve;
pub use linear_system::LinearEquations;
pub use linear_system::LinearProblem;
pub use term::Term;
pub use term::MAX_UNITS;
pub use term::SCALE;
