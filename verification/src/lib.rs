//! Exact linear and integer programming.
//!
//! A problem is a text such as
//!
//! ```text
//! max 2 x1 + 3 x2;
//! x1 + x2 <= 4;
//! x1 + 3 x2 <= 6;
//! ```
//!
//! with variables that are not negative. It is solved by the simplex method on
//! a tableau of exact rational numbers, in penalty mode or in two phases, and
//! in whole numbers by branch and bound.
//!
//! - [`rational`]: exact rational numbers with checked arithmetic.
//! - [`text`]: the problem language, from bytes to statements.
//! - [`loader`]: from statements to the first tableau.
//! - [`tableau`]: the tableau and its model.
//! - [`pivot`]: the kernel, one simplex iteration.
//! - [`parallel`]: the data-parallel passes of an iteration.
//! - [`driver`]: repeated pivoting, the check of the result, the solution.
//! - [`search`]: branch and bound.
//! - [`error`]: the ways in which loading and solving fail.
//!
//! Numbers are exact, so a result is either right or absent: an operation
//! whose value leaves the range of the numbers is reported as
//! [`error::LpError::Overflow`]. The simplex method with these rules of choice
//! can cycle, so every solve takes an allowance of iterations and reports
//! [`error::LpError::IterationLimit`] when it is used up.

pub mod driver;
pub mod error;
pub mod loader;
pub mod parallel;
pub mod pivot;
pub mod rational;
pub mod search;
pub mod tableau;
pub mod text;

pub use crate::driver::{solve_system, solve_system_two_phases};
pub use crate::error::{LpError, ParseError, ParseErrorKind};
pub use crate::loader::{parse_lp_bigm, parse_lp_two_phases};
pub use crate::rational::Rational;
pub use crate::search::branch_and_bound;
pub use crate::tableau::{Sense, Variable};
pub use crate::text::LPParser;
