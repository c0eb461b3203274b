//! The two data-parallel passes of a pivot, run on rayon's worker pool.
//!
//! Both passes map one verified function over independent items and collect
//! the results in the items' order. The pool itself is never configured here:
//! whoever embeds the library sets it up once, or leaves rayon's default.

use crate::pivot::{
    candidate_cost, candidates, candidates_view, model, next_row_of, reduced_rows, Candidate,
};
use crate::driver::{check_row_at, row_checks, RowCheck};
use crate::rational::{Ratio, Rational};
use crate::tableau::{matrix_view, rectangular, row_view, Variable};
use rayon::iter::{
    IndexedParallelIterator, IntoParallelIterator, IntoParallelRefIterator, ParallelIterator,
};
use vstd::prelude::*;

verus! {

/// The model of a matrix that may be missing.
pub open spec fn option_matrix_view(r: Option<Vec<Vec<Rational>>>) -> Option<Seq<Seq<Ratio>>> {
    match r {
        Some(m) => Some(matrix_view(m@)),
        None => None,
    }
}

/// Maps [`candidate_cost`] over the variables' indices with rayon's
/// `into_par_iter`, `map` and `collect`.
///
/// Trusted: that rayon calls the closure once for each index of the range and
/// that `collect` into a `Vec` keeps the order of the range. The closure is
/// one call of the verified function, whose contract gives each entry.
#[verifier::external_body]
pub(crate) fn par_candidates(
    matrix: &Vec<Vec<Rational>>,
    variables: &Vec<Variable>,
    basis: &Vec<usize>,
    phase_two: bool,
) -> (r: Vec<Candidate>)
    requires
        model(matrix@, variables@, basis@).wf(),
    ensures
        candidates_view(r@) == candidates(model(matrix@, variables@, basis@), phase_two),
{
    (0..variables.len()).into_par_iter().map(
        |j| candidate_cost(matrix, variables, basis, phase_two, j),
    ).collect()
}

/// Maps [`next_row_of`] over the rows with rayon's `par_iter`, `enumerate`,
/// `map` and `collect`.
///
/// Trusted: that rayon calls the closure once for each row with the row's
/// index, that `collect` into an `Option` of a `Vec` is `None` exactly where
/// some call returned `None`, and that it otherwise keeps the rows' order. The
/// closure is one call of the verified function, whose contract gives each
/// row.
#[verifier::external_body]
pub(crate) fn par_next_rows(
    matrix: &Vec<Vec<Rational>>,
    l: usize,
    c: usize,
    prow: &Vec<Rational>,
) -> (r: Option<Vec<Vec<Rational>>>)
    requires
        c < prow.len(),
        rectangular(matrix_view(matrix@), prow.len() - 1),
    ensures
        option_matrix_view(r) == reduced_rows(
            matrix_view(matrix@),
            l as int,
            c as int,
            row_view(prow@),
        ),
{
    matrix.par_iter().enumerate().map(|(i, row)| next_row_of(row, i, l, c, prow)).collect()
}

/// Maps [`check_row_at`] over the rows with rayon's `par_iter`, `map` and
/// `collect`.
///
/// Trusted: that rayon calls the closure once for each row and that `collect`
/// into a `Vec` keeps the rows' order. The closure is one call of the verified
/// function, whose contract gives each entry.
#[verifier::external_body]
pub(crate) fn par_row_checks(rows: &Vec<Vec<Rational>>, x: &Vec<Rational>) -> (r: Vec<RowCheck>)
    requires
        rectangular(matrix_view(rows@), x.len() as int),
    ensures
        r@ == row_checks(matrix_view(rows@), row_view(x@)),
{
    rows.par_iter().map(|row| check_row_at(row, x)).collect()
}

} // verus!
