//! The simplex tableau and its mathematical model.
//!
//! A tableau is a matrix of `m` rows and a list of `n` variables. Each row
//! holds the right-hand side at index 0 and the coefficient of the variable
//! with column `c` at index `c`, for `c` from 1 to `n`. Exactly one variable is
//! basic in each row; the list `basis` names it.

use crate::rational::{lemma_ratio_unit, Ratio, Rational};
use vstd::prelude::*;

verus! {

/// One variable of the tableau.
#[derive(Clone, Copy, Debug)]
pub struct Variable {
    /// The variable is basic: its value is the right-hand side of its row.
    pub in_base: bool,
    /// The cost that the current phase gives the variable.
    pub cost: Rational,
    /// The row in which the variable is basic, `usize::MAX` otherwise.
    pub row: usize,
    /// The variable's column, counted from 1.
    pub column: usize,
    /// The variable turns a `<=` or `>=` constraint into an equation.
    pub is_slack: bool,
    /// The variable only seeds the first basis.
    pub is_artificial: bool,
}

/// The mathematical model of a [`Variable`].
pub struct VarModel {
    pub in_base: bool,
    pub cost: Ratio,
    pub row: int,
    pub column: int,
    pub is_slack: bool,
    pub is_artificial: bool,
}

impl View for Variable {
    type V = VarModel;

    open spec fn view(&self) -> VarModel {
        VarModel {
            in_base: self.in_base,
            cost: self.cost@,
            row: self.row as int,
            column: self.column as int,
            is_slack: self.is_slack,
            is_artificial: self.is_artificial,
        }
    }
}

/// The direction of optimisation.
#[derive(Clone, Copy, Debug, PartialEq, Eq, Structural)]
pub enum Sense {
    Maximize,
    Minimize,
}

/// The model of a list of variables.
pub open spec fn vars_view(v: Seq<Variable>) -> Seq<VarModel> {
    Seq::new(v.len(), |j: int| v[j]@)
}

/// The model of a row.
pub open spec fn row_view(r: Seq<Rational>) -> Seq<Ratio> {
    Seq::new(r.len(), |j: int| r[j]@)
}

/// The model of a matrix.
pub open spec fn matrix_view(m: Seq<Vec<Rational>>) -> Seq<Seq<Ratio>> {
    Seq::new(m.len(), |i: int| row_view(m[i]@))
}

/// The model of a list of row indices.
pub open spec fn index_view(b: Seq<usize>) -> Seq<int> {
    Seq::new(b.len(), |i: int| b[i] as int)
}

/// The tolerance below which a value counts as zero: one millionth.
pub open spec fn epsilon() -> Ratio {
    Ratio { num: 1, den: 1_000_000 }
}

/// `x` is at most the tolerance in absolute value.
pub open spec fn negligible(x: Ratio) -> bool {
    !epsilon().lt(x.absolute())
}

/// Every row has one entry for the right-hand side and one for each of the
/// `n` variables.
pub open spec fn rectangular(rows: Seq<Seq<Ratio>>, n: int) -> bool {
    forall|i: int| 0 <= i < rows.len() ==> (#[trigger] rows[i]).len() == n + 1
}

/// The variables are numbered by their columns, and each row of the `m` rows
/// has exactly one basic variable.
pub open spec fn vars_wf(vars: Seq<VarModel>, m: int) -> bool {
    &&& forall|j: int| 0 <= j < vars.len() ==> (#[trigger] vars[j]).column == j + 1
    &&& forall|j: int| 0 <= j < vars.len() && (#[trigger] vars[j]).in_base ==> 0 <= vars[j].row < m
    &&& forall|j: int, k: int|
        0 <= j < vars.len() && 0 <= k < vars.len() && (#[trigger] vars[j]).in_base && (
        #[trigger] vars[k]).in_base && vars[j].row == vars[k].row ==> j == k
    &&& forall|i: int| 0 <= i < m ==> #[trigger] has_basic(vars, i)
}

/// Variable `j` is basic in row `i`.
pub open spec fn basic_in(vars: Seq<VarModel>, j: int, i: int) -> bool {
    0 <= j < vars.len() && vars[j].in_base && vars[j].row == i
}

/// Some variable is basic in row `i`.
pub open spec fn has_basic(vars: Seq<VarModel>, i: int) -> bool {
    exists|j: int| #[trigger] basic_in(vars, j, i)
}

/// `basis` names, for each row, the variable that is basic in it.
pub open spec fn basis_wf(vars: Seq<VarModel>, basis: Seq<int>) -> bool {
    &&& forall|i: int| 0 <= i < basis.len() ==> basic_in(vars, #[trigger] basis[i], i)
    &&& forall|j: int|
        0 <= j < vars.len() && (#[trigger] vars[j]).in_base ==> 0 <= vars[j].row < basis.len()
            && basis[vars[j].row] == j
}

/// A tableau that the pivot kernel accepts.
pub open spec fn tableau_wf(rows: Seq<Seq<Ratio>>, vars: Seq<VarModel>, basis: Seq<int>) -> bool {
    &&& rectangular(rows, vars.len() as int)
    &&& basis.len() == rows.len()
    &&& basis_wf(vars, basis)
    &&& forall|j: int| 0 <= j < vars.len() ==> (#[trigger] vars[j]).column == j + 1
}

/// The tolerance as a number.
pub fn tolerance() -> (e: Rational)
    ensures
        e@ == epsilon(),
{
    let r = Rational::new(1, 1_000_000);
    proof {
        lemma_ratio_unit(1_000_000);
    }
    r.unwrap()
}

/// Whether `x` is at most the tolerance in absolute value.
pub fn is_negligible(x: Rational) -> (b: bool)
    ensures
        b == negligible(x@),
{
    !tolerance().lt(x.abs())
}

} // verus!
