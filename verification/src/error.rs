//! The ways in which loading or solving a problem fails.

use vstd::prelude::*;

verus! {

/// What the loader expected where the text went wrong.
#[derive(Clone, Copy, Debug, PartialEq, Eq, Structural)]
pub enum ParseErrorKind {
    /// The text does not start with `max` or `min`.
    Objective,
    /// A variable's name was expected.
    Variable,
    /// One of `<=`, `>=` and `=` was expected.
    Relation,
    /// A number was expected.
    Number,
    /// A `;` was expected.
    Semicolon,
    /// A number or a sum of costs does not fit the stored range.
    Range,
}

/// A malformed problem text: what was expected, and the byte at which.
#[derive(Clone, Copy, Debug, PartialEq, Eq, Structural)]
pub struct ParseError {
    pub position: usize,
    pub kind: ParseErrorKind,
}

/// Why no solution is returned.
#[derive(Clone, Copy, Debug, PartialEq, Eq, Structural)]
pub enum LpError {
    /// The problem text is malformed.
    Parse(ParseError),
    /// An improving direction has no limiting row.
    Unbounded,
    /// No basic feasible solution satisfies the constraints.
    Infeasible,
    /// The search ended without an integral solution.
    NoIntegerSolution,
    /// A value left the range of the exact numbers.
    Overflow,
    /// The allowed number of iterations was used up.
    IterationLimit,
}

} // verus!
