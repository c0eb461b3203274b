//! The pivot kernel: one simplex iteration on a tableau.
//!
//! An iteration picks the entering column by the most negative reduced cost,
//! the leaving row by the least ratio, scales the leaving row by the pivot and
//! clears the entering column from every other row. Each choice is stated here
//! as a function of the tableau's model, and the code is proved to compute it.

use crate::parallel::{par_candidates, par_next_rows};
use crate::rational::{
    lemma_order_total, lemma_order_transitive, lemma_ratio_value, lemma_view_den_positive, Ratio,
    Rational,
};
use crate::tableau::{
    basic_in, index_view, is_negligible, matrix_view, negligible, row_view, tableau_wf, vars_view,
    VarModel, Variable,
};
use vstd::prelude::*;

verus! {

/// `q` where it fits the stored range, `None` otherwise.
pub open spec fn checked(q: Ratio) -> Option<Ratio> {
    if q.fits() {
        Some(q)
    } else {
        None
    }
}

/// The sum of the products of the first `k` entries of `a` and `b`, taken in
/// order; `None` once a product or a partial sum leaves the stored range.
pub open spec fn dot(a: Seq<Ratio>, b: Seq<Ratio>, k: nat) -> Option<Ratio>
    decreases k,
{
    if k == 0 {
        Some(Ratio::zero())
    } else {
        match dot(a, b, (k - 1) as nat) {
            None => None,
            Some(acc) => {
                let p = a[k - 1].times(b[k - 1]);
                if p.fits() {
                    checked(acc.plus(p))
                } else {
                    None
                }
            },
        }
    }
}

/// Once a partial sum has left the range, every longer one has.
pub proof fn lemma_dot_none(a: Seq<Ratio>, b: Seq<Ratio>, k: nat, n: nat)
    requires
        k <= n,
        dot(a, b, k) is None,
    ensures
        dot(a, b, n) is None,
    decreases n,
{
    if k < n {
        lemma_dot_none(a, b, k, (n - 1) as nat);
    }
}

/// The costs of the basic variables, by row.
pub open spec fn basic_costs(vars: Seq<VarModel>, basis: Seq<int>) -> Seq<Ratio> {
    Seq::new(basis.len(), |i: int| vars[basis[i]].cost)
}

/// Column `c` of the matrix, by row.
pub open spec fn column(rows: Seq<Seq<Ratio>>, c: int) -> Seq<Ratio> {
    Seq::new(rows.len(), |i: int| rows[i][c])
}

/// What a variable offers as entering variable.
pub enum CostModel {
    /// It is basic, or artificial in the second phase.
    Ineligible,
    /// Its reduced cost leaves the stored range.
    Overflow,
    /// Its reduced cost.
    Cost(Ratio),
}

/// The reduced cost of variable `j`: the basic costs times its column, less its
/// own cost.
pub open spec fn candidate(
    rows: Seq<Seq<Ratio>>,
    vars: Seq<VarModel>,
    basis: Seq<int>,
    phase_two: bool,
    j: int,
) -> CostModel {
    if vars[j].in_base || (phase_two && vars[j].is_artificial) {
        CostModel::Ineligible
    } else {
        match dot(basic_costs(vars, basis), column(rows, j + 1), rows.len()) {
            None => CostModel::Overflow,
            Some(d) => match checked(d.minus(vars[j].cost)) {
                None => CostModel::Overflow,
                Some(c) => CostModel::Cost(c),
            },
        }
    }
}

/// What a variable offers as entering variable.
#[derive(Clone, Copy, Debug)]
pub enum Candidate {
    /// It is basic, or artificial in the second phase.
    Ineligible,
    /// Its reduced cost leaves the stored range.
    Overflow,
    /// Its reduced cost.
    Cost(Rational),
}

impl View for Candidate {
    type V = CostModel;

    open spec fn view(&self) -> CostModel {
        match *self {
            Candidate::Ineligible => CostModel::Ineligible,
            Candidate::Overflow => CostModel::Overflow,
            Candidate::Cost(c) => CostModel::Cost(c@),
        }
    }
}

/// The model of a list of candidates.
pub open spec fn candidates_view(c: Seq<Candidate>) -> Seq<CostModel> {
    Seq::new(c.len(), |j: int| c[j]@)
}

/// Computes the basic costs times column `c`, row by row.
pub fn scalar_product_column(
    matrix: &Vec<Vec<Rational>>,
    variables: &Vec<Variable>,
    basis: &Vec<usize>,
    c: usize,
) -> (r: Option<Rational>)
    requires
        tableau_wf(matrix_view(matrix@), vars_view(variables@), index_view(basis@)),
        c <= variables.len(),
    ensures
        match r {
            Some(v) => dot(
                basic_costs(vars_view(variables@), index_view(basis@)),
                column(matrix_view(matrix@), c as int),
                matrix.len() as nat,
            ) == Some(v@),
            None => dot(
                basic_costs(vars_view(variables@), index_view(basis@)),
                column(matrix_view(matrix@), c as int),
                matrix.len() as nat,
            ) is None,
        },
{
    let ghost rows = matrix_view(matrix@);
    let ghost vars = vars_view(variables@);
    let ghost bas = index_view(basis@);
    let ghost costs = basic_costs(vars, bas);
    let ghost col = column(rows, c as int);
    let mut acc = Rational::zero();
    let mut i: usize = 0;
    while i < matrix.len()
        invariant
            i <= matrix.len(),
            c <= variables.len(),
            rows == matrix_view(matrix@),
            vars == vars_view(variables@),
            bas == index_view(basis@),
            costs == basic_costs(vars, bas),
            col == column(rows, c as int),
            tableau_wf(rows, vars, bas),
            dot(costs, col, i as nat) == Some(acc@),
        decreases matrix.len() - i,
    {
        assert(rows[i as int].len() == variables.len() + 1);
        assert(basic_in(vars, bas[i as int], i as int));
        let b: usize = basis[i];
        let x = matrix[i][c];
        assert(costs[i as int] == variables[b as int].cost@);
        assert(col[i as int] == x@);
        match variables[b].cost.mul(x) {
            None => {
                proof {
                    lemma_dot_none(costs, col, (i + 1) as nat, matrix.len() as nat);
                }
                return None;
            },
            Some(p) => match acc.add(p) {
                None => {
                    proof {
                        lemma_dot_none(costs, col, (i + 1) as nat, matrix.len() as nat);
                    }
                    return None;
                },
                Some(s) => {
                    acc = s;
                },
            },
        }
        i += 1;
    }
    Some(acc)
}

/// Computes what variable `j` offers as entering variable.
pub fn candidate_cost(
    matrix: &Vec<Vec<Rational>>,
    variables: &Vec<Variable>,
    basis: &Vec<usize>,
    phase_two: bool,
    j: usize,
) -> (c: Candidate)
    requires
        tableau_wf(matrix_view(matrix@), vars_view(variables@), index_view(basis@)),
        j < variables.len(),
    ensures
        c@ == candidate(
            matrix_view(matrix@),
            vars_view(variables@),
            index_view(basis@),
            phase_two,
            j as int,
        ),
{
    let v = variables[j];
    if v.in_base || (phase_two && v.is_artificial) {
        return Candidate::Ineligible;
    }
    match scalar_product_column(matrix, variables, basis, j + 1) {
        None => Candidate::Overflow,
        Some(d) => match d.sub(v.cost) {
            None => Candidate::Overflow,
            Some(c) => Candidate::Cost(c),
        },
    }
}

/// The reduced cost that a candidate holds.
pub open spec fn cost_of(c: CostModel) -> Ratio {
    match c {
        CostModel::Cost(x) => x,
        _ => Ratio::zero(),
    }
}

/// Among the first `k` candidates, the one of least reduced cost, the earliest
/// of those that share it; `None` where none offers a cost.
pub open spec fn best_candidate(c: Seq<CostModel>, k: nat) -> Option<int>
    decreases k,
{
    if k == 0 {
        None
    } else {
        let prev = best_candidate(c, (k - 1) as nat);
        match c[k - 1] {
            CostModel::Cost(x) => match prev {
                None => Some(k - 1),
                Some(b) => if x.lt(cost_of(c[b])) {
                    Some(k - 1)
                } else {
                    prev
                },
            },
            _ => prev,
        }
    }
}

/// Some candidate among the first `k` has left the stored range.
pub open spec fn overflow_before(c: Seq<CostModel>, k: int) -> bool {
    exists|j: int| 0 <= j < k && #[trigger] c[j] is Overflow
}

/// The choice of the entering column.
#[derive(Clone, Copy, Debug, PartialEq, Eq, Structural)]
pub enum Entering {
    /// A reduced cost left the stored range.
    Overflow,
    /// No candidate has a negative reduced cost: the basis is optimal.
    Optimal,
    /// The variable with this index enters.
    Column(usize),
}

/// The entering variable: the candidate of the most negative reduced cost, the
/// one of lowest index among equals.
pub open spec fn entering(c: Seq<CostModel>) -> Entering {
    if overflow_before(c, c.len() as int) {
        Entering::Overflow
    } else {
        match best_candidate(c, c.len()) {
            None => Entering::Optimal,
            Some(j) => if cost_of(c[j]).is_negative() {
                Entering::Column(j as usize)
            } else {
                Entering::Optimal
            },
        }
    }
}

/// The best candidate is one of the candidates and offers a cost.
pub proof fn lemma_best_candidate_range(c: Seq<CostModel>, k: nat)
    requires
        k <= c.len(),
    ensures
        match best_candidate(c, k) {
            Some(j) => 0 <= j < k && c[j] is Cost,
            None => forall|i: int| 0 <= i < k ==> !(#[trigger] c[i] is Cost),
        },
    decreases k,
{
    if k > 0 {
        lemma_best_candidate_range(c, (k - 1) as nat);
    }
}

/// Every reduced cost offered has a positive denominator.
pub open spec fn costs_wf(c: Seq<CostModel>) -> bool {
    forall|i: int| 0 <= i < c.len() ==> cost_of(#[trigger] c[i]).den > 0
}

/// Among the first `k` candidates, candidate `j` offers a cost that is below
/// every cost offered before it and at most every cost offered after it.
pub open spec fn is_least(c: Seq<CostModel>, k: int, j: int) -> bool {
    &&& 0 <= j < k
    &&& c[j] is Cost
    &&& forall|i: int|
        0 <= i < k && (#[trigger] c[i]) is Cost ==> (i < j ==> cost_of(c[j]).lt(cost_of(c[i])))
            && (j <= i ==> cost_of(c[j]).le(cost_of(c[i])))
}

/// The best candidate offers the least cost and is the first to offer it.
pub proof fn lemma_best_candidate_least(c: Seq<CostModel>, k: nat)
    requires
        k <= c.len(),
        costs_wf(c),
    ensures
        match best_candidate(c, k) {
            Some(j) => is_least(c, k as int, j),
            None => forall|i: int| 0 <= i < k ==> !(#[trigger] c[i] is Cost),
        },
    decreases k,
{
    if k > 0 {
        lemma_best_candidate_least(c, (k - 1) as nat);
        lemma_best_candidate_range(c, (k - 1) as nat);
        let prev = best_candidate(c, (k - 1) as nat);
        match c[k - 1] {
            CostModel::Cost(x) => {
                match prev {
                    None => {},
                    Some(b) => {
                        let y = cost_of(c[b]);
                        lemma_order_total(x, y);
                        if x.lt(y) {
                            assert forall|i: int| 0 <= i < k && (#[trigger] c[i]) is Cost implies (i
                                < k - 1 ==> x.lt(cost_of(c[i]))) && (k - 1 <= i ==> x.le(
                                cost_of(c[i]),
                            )) by {
                                if i < k - 1 {
                                    lemma_order_transitive(x, y, cost_of(c[i]));
                                }
                            }
                        }
                    },
                }
            },
            _ => {},
        }
    }
}

/// The entering variable offers the least cost, which is negative, and is the
/// first to offer it. Where none enters, no cost offered is negative.
pub proof fn lemma_entering_least(c: Seq<CostModel>)
    ensures
        costs_wf(c) && c.len() <= usize::MAX ==> match entering(c) {
            Entering::Column(j) => is_least(c, c.len() as int, j as int) && cost_of(
                c[j as int],
            ).is_negative(),
            Entering::Optimal => forall|i: int|
                0 <= i < c.len() && (#[trigger] c[i]) is Cost ==> !cost_of(c[i]).is_negative(),
            Entering::Overflow => overflow_before(c, c.len() as int),
        },
{
    if costs_wf(c) && c.len() <= usize::MAX {
        lemma_best_candidate_least(c, c.len());
        if !overflow_before(c, c.len() as int) {
            match best_candidate(c, c.len()) {
                None => {},
                Some(j) => {
                    let y = cost_of(c[j]);
                    if !y.is_negative() {
                        assert forall|i: int| 0 <= i < c.len() && (#[trigger] c[i]) is Cost implies 
                        !cost_of(c[i]).is_negative() by {
                            let x = cost_of(c[i]);
                            assert(y.le(x));
                            assert(x.num >= 0) by (nonlinear_arith)
                                requires
                                    y.num * x.den <= x.num * y.den,
                                    y.num >= 0,
                                    x.den > 0,
                                    y.den > 0,
                            ;
                        }
                    }
                },
            }
        }
    }
}

/// The order of the costs, with the lower index first among equals, leaves
/// one choice: two candidates that are both the least are the same.
pub proof fn lemma_least_unique(c: Seq<CostModel>, k: int, a: int, b: int)
    requires
        is_least(c, k, a),
        is_least(c, k, b),
    ensures
        a == b,
{
}

/// Picks the entering variable among the candidates.
pub fn select_entering(cands: &Vec<Candidate>) -> (e: Entering)
    ensures
        e == entering(candidates_view(cands@)),
        match e {
            Entering::Column(j) => is_least(candidates_view(cands@), cands.len() as int, j as int)
                && cost_of(candidates_view(cands@)[j as int]).is_negative(),
            Entering::Optimal => forall|i: int|
                0 <= i < cands.len() && (#[trigger] candidates_view(cands@)[i]) is Cost
                    ==> !cost_of(candidates_view(cands@)[i]).is_negative(),
            Entering::Overflow => overflow_before(candidates_view(cands@), cands.len() as int),
        },
{
    let ghost c = candidates_view(cands@);
    proof {
        lemma_entering_least(c);
        assert(costs_wf(c)) by {
            broadcast use lemma_view_den_positive;
        }
    }
    let mut best: Option<usize> = None;
    let mut k: usize = 0;
    while k < cands.len()
        invariant
            k <= cands.len(),
            c == candidates_view(cands@),
            !overflow_before(c, k as int),
            match best {
                Some(b) => best_candidate(c, k as nat) == Some(b as int) && b < k && cands[b as int] is Cost,
                None => best_candidate(c, k as nat) is None,
            },
        decreases cands.len() - k,
    {
        match cands[k] {
            Candidate::Overflow => {
                assert(c[k as int] is Overflow);
                return Entering::Overflow;
            },
            Candidate::Ineligible => {},
            Candidate::Cost(x) => {
                match best {
                    None => {
                        best = Some(k);
                    },
                    Some(b) => {
                        match cands[b] {
                            Candidate::Cost(y) => {
                                if x.lt(y) {
                                    best = Some(k);
                                }
                            },
                            _ => {},
                        }
                    },
                }
            },
        }
        k += 1;
    }
    match best {
        None => Entering::Optimal,
        Some(b) => match cands[b] {
            Candidate::Cost(y) => if y.is_negative() {
                Entering::Column(b)
            } else {
                Entering::Optimal
            },
            _ => Entering::Optimal,
        },
    }
}

/// The state of the search for the leaving row.
pub enum LeavingState {
    /// A ratio left the stored range.
    Overflow,
    /// No row limits the entering variable so far.
    NoRow,
    /// The row chosen so far, and its ratio.
    Best(int, Ratio),
}

/// The leaving row among the first `k` rows, for entering column `c`.
///
/// A row takes part where its entry in the column is positive and its ratio of
/// right-hand side to entry is not negative. The least ratio wins, the first
/// row among equals; in the first phase a later row of equal ratio whose basic
/// variable is artificial takes its place.
pub open spec fn leaving_fold(
    rows: Seq<Seq<Ratio>>,
    vars: Seq<VarModel>,
    basis: Seq<int>,
    c: int,
    phase_one: bool,
    k: nat,
) -> LeavingState
    decreases k,
{
    if k == 0 {
        LeavingState::NoRow
    } else {
        let i = k - 1;
        let prev = leaving_fold(rows, vars, basis, c, phase_one, i as nat);
        if prev is Overflow {
            LeavingState::Overflow
        } else if !rows[i][c].is_positive() {
            prev
        } else {
            let q = rows[i][0].over(rows[i][c]);
            if !q.fits() {
                LeavingState::Overflow
            } else {
                match prev {
                    LeavingState::Best(b, m) => if phase_one && q.same(m)
                        && vars[basis[i]].is_artificial {
                        LeavingState::Best(i, m)
                    } else if !q.is_negative() && q.lt(m) {
                        LeavingState::Best(i, q)
                    } else {
                        prev
                    },
                    _ => if !q.is_negative() {
                        LeavingState::Best(i, q)
                    } else {
                        prev
                    },
                }
            }
        }
    }
}

/// The choice of the leaving row.
#[derive(Clone, Copy, Debug, PartialEq, Eq, Structural)]
pub enum Leaving {
    /// A ratio left the stored range.
    Overflow,
    /// No row limits the entering variable: the problem is unbounded.
    Unbounded,
    /// The basic variable of this row leaves.
    Row(usize),
}

/// The leaving row for entering column `c`.
pub open spec fn leaving(
    rows: Seq<Seq<Ratio>>,
    vars: Seq<VarModel>,
    basis: Seq<int>,
    c: int,
    phase_one: bool,
) -> Leaving {
    match leaving_fold(rows, vars, basis, c, phase_one, rows.len()) {
        LeavingState::Overflow => Leaving::Overflow,
        LeavingState::NoRow => Leaving::Unbounded,
        LeavingState::Best(i, _) => Leaving::Row(i as usize),
    }
}

/// Once a ratio has left the range, the search has failed for good.
pub proof fn lemma_leaving_overflow(
    rows: Seq<Seq<Ratio>>,
    vars: Seq<VarModel>,
    basis: Seq<int>,
    c: int,
    phase_one: bool,
    k: nat,
    n: nat,
)
    requires
        k <= n,
        leaving_fold(rows, vars, basis, c, phase_one, k) is Overflow,
    ensures
        leaving_fold(rows, vars, basis, c, phase_one, n) is Overflow,
    decreases n,
{
    if k < n {
        lemma_leaving_overflow(rows, vars, basis, c, phase_one, k, (n - 1) as nat);
    }
}

/// The row chosen so far is one of the rows seen, and its entry in the column
/// is positive.
pub proof fn lemma_leaving_range(
    rows: Seq<Seq<Ratio>>,
    vars: Seq<VarModel>,
    basis: Seq<int>,
    c: int,
    phase_one: bool,
    k: nat,
)
    ensures
        match leaving_fold(rows, vars, basis, c, phase_one, k) {
            LeavingState::Best(i, _) => 0 <= i < k && rows[i][c].is_positive(),
            _ => true,
        },
    decreases k,
{
    if k > 0 {
        lemma_leaving_range(rows, vars, basis, c, phase_one, (k - 1) as nat);
    }
}

/// The ratio of row `i` for column `c`: the right-hand side over the entry.
pub open spec fn ratio_of(rows: Seq<Seq<Ratio>>, i: int, c: int) -> Ratio {
    rows[i][0].over(rows[i][c])
}

/// Row `i` limits the entering variable of column `c`: its entry in the column
/// is positive and its ratio is not negative.
pub open spec fn limits(rows: Seq<Seq<Ratio>>, i: int, c: int) -> bool {
    rows[i][c].is_positive() && !ratio_of(rows, i, c).is_negative()
}

/// The leaving row limits the entering variable, and its ratio is at most the
/// ratio of every row that does. Where no row is chosen, none limits it.
pub proof fn lemma_leaving_least(
    rows: Seq<Seq<Ratio>>,
    vars: Seq<VarModel>,
    basis: Seq<int>,
    c: int,
    phase_one: bool,
    k: nat,
)
    requires
        forall|i: int| 0 <= i < k ==> (#[trigger] rows[i])[0].den > 0 && rows[i][c].den > 0,
    ensures
        match leaving_fold(rows, vars, basis, c, phase_one, k) {
            LeavingState::Best(b, m) => {
                &&& 0 <= b < k
                &&& limits(rows, b, c)
                &&& m.same(ratio_of(rows, b, c))
                &&& m.den > 0
                &&& !m.is_negative()
                &&& forall|i: int|
                    0 <= i < k && #[trigger] limits(rows, i, c) ==> m.le(ratio_of(rows, i, c))
            },
            LeavingState::NoRow => forall|i: int| 0 <= i < k ==> !#[trigger] limits(rows, i, c),
            LeavingState::Overflow => true,
        },
    decreases k,
{
    if k > 0 {
        let i = k - 1;
        lemma_leaving_least(rows, vars, basis, c, phase_one, i as nat);
        let prev = leaving_fold(rows, vars, basis, c, phase_one, i as nat);
        assert(rows[i][0].den > 0 && rows[i][c].den > 0);
        if !(prev is Overflow) && rows[i][c].is_positive() {
            let q = ratio_of(rows, i, c);
            let n = rows[i][0].num * rows[i][c].den;
            let d = rows[i][0].den * rows[i][c].num;
            assert(d > 0) by (nonlinear_arith)
                requires
                    d == rows[i][0].den * rows[i][c].num,
                    rows[i][0].den > 0,
                    rows[i][c].num > 0,
            ;
            lemma_ratio_value(n, d);
            if q.fits() {
                match prev {
                    LeavingState::Best(b, m) => {
                        lemma_order_total(q, m);
                        if phase_one && q.same(m) && vars[basis[i]].is_artificial {
                            assert(q.num >= 0) by (nonlinear_arith)
                                requires
                                    q.num * m.den == m.num * q.den,
                                    m.num >= 0,
                                    m.den > 0,
                                    q.den > 0,
                            ;
                        } else if !q.is_negative() && q.lt(m) {
                            assert forall|r: int| 0 <= r < k && #[trigger] limits(
                                rows,
                                r,
                                c,
                            ) implies q.le(ratio_of(rows, r, c)) by {
                                if r < i {
                                    let t = ratio_of(rows, r, c);
                                    let tn = rows[r][0].num * rows[r][c].den;
                                    let td = rows[r][0].den * rows[r][c].num;
                                    assert(rows[r][0].den > 0 && rows[r][c].den > 0);
                                    assert(td > 0) by (nonlinear_arith)
                                        requires
                                            td == rows[r][0].den * rows[r][c].num,
                                            rows[r][0].den > 0,
                                            rows[r][c].num > 0,
                                    ;
                                    lemma_ratio_value(tn, td);
                                    lemma_order_transitive(q, m, t);
                                }
                            }
                        }
                    },
                    _ => {},
                }
            }
        }
    }
}

/// The leaving row limits the entering variable, and its ratio is at most the
/// ratio of every row that does. Where the problem is found unbounded, no row
/// limits the entering variable.
pub proof fn lemma_leaving_row_least(
    rows: Seq<Seq<Ratio>>,
    vars: Seq<VarModel>,
    basis: Seq<int>,
    c: int,
    phase_one: bool,
)
    requires
        forall|i: int| 0 <= i < rows.len() ==> (#[trigger] rows[i])[0].den > 0 && rows[i][c].den > 0,
    ensures
        match leaving_fold(rows, vars, basis, c, phase_one, rows.len()) {
            LeavingState::Best(b, _) => 0 <= b < rows.len() && limits(rows, b, c) && forall|r: int|
                0 <= r < rows.len() && #[trigger] limits(rows, r, c) ==> ratio_of(rows, b, c).le(
                    ratio_of(rows, r, c),
                ),
            LeavingState::NoRow => forall|r: int|
                0 <= r < rows.len() ==> !#[trigger] limits(rows, r, c),
            LeavingState::Overflow => true,
        },
{
    lemma_leaving_least(rows, vars, basis, c, phase_one, rows.len());
    match leaving_fold(rows, vars, basis, c, phase_one, rows.len()) {
        LeavingState::Best(b, m) => {
            let q = ratio_of(rows, b, c);
            lemma_ratio_den(rows, b, c);
            assert forall|r: int| 0 <= r < rows.len() && #[trigger] limits(rows, r, c) implies q.le(
                ratio_of(rows, r, c),
            ) by {
                lemma_ratio_den(rows, r, c);
                lemma_order_transitive(q, m, ratio_of(rows, r, c));
            }
        },
        _ => {},
    }
}

/// The ratio of a row with a positive entry in the column has a positive
/// denominator.
pub proof fn lemma_ratio_den(rows: Seq<Seq<Ratio>>, i: int, c: int)
    requires
        rows[i][0].den > 0,
        rows[i][c].den > 0,
        rows[i][c].is_positive(),
    ensures
        ratio_of(rows, i, c).den > 0,
{
    let n = rows[i][0].num * rows[i][c].den;
    let d = rows[i][0].den * rows[i][c].num;
    assert(d > 0) by (nonlinear_arith)
        requires
            d == rows[i][0].den * rows[i][c].num,
            rows[i][0].den > 0,
            rows[i][c].num > 0,
    ;
    lemma_ratio_value(n, d);
}

/// Picks the leaving row for the entering column `col`.
pub fn select_leaving(
    matrix: &Vec<Vec<Rational>>,
    variables: &Vec<Variable>,
    basis: &Vec<usize>,
    col: usize,
    phase_one: bool,
) -> (l: Leaving)
    requires
        tableau_wf(matrix_view(matrix@), vars_view(variables@), index_view(basis@)),
        1 <= col <= variables.len(),
    ensures
        l == leaving(
            matrix_view(matrix@),
            vars_view(variables@),
            index_view(basis@),
            col as int,
            phase_one,
        ),
        match l {
            Leaving::Row(i) => i < matrix.len() && limits(matrix_view(matrix@), i as int, col as int)
                && forall|r: int|
                0 <= r < matrix.len() && #[trigger] limits(matrix_view(matrix@), r, col as int)
                    ==> ratio_of(matrix_view(matrix@), i as int, col as int).le(
                    ratio_of(matrix_view(matrix@), r, col as int),
                ),
            Leaving::Unbounded => forall|r: int|
                0 <= r < matrix.len() ==> !#[trigger] limits(matrix_view(matrix@), r, col as int),
            Leaving::Overflow => true,
        },
{
    let ghost rows = matrix_view(matrix@);
    let ghost vars = vars_view(variables@);
    let ghost bas = index_view(basis@);
    let mut best: Option<(usize, Rational)> = None;
    let mut i: usize = 0;
    while i < matrix.len()
        invariant
            i <= matrix.len(),
            1 <= col <= variables.len(),
            rows == matrix_view(matrix@),
            vars == vars_view(variables@),
            bas == index_view(basis@),
            tableau_wf(rows, vars, bas),
            match best {
                Some((b, m)) => leaving_fold(rows, vars, bas, col as int, phase_one, i as nat)
                    == LeavingState::Best(b as int, m@),
                None => leaving_fold(rows, vars, bas, col as int, phase_one, i as nat)
                    is NoRow,
            },
        decreases matrix.len() - i,
    {
        assert(rows[i as int].len() == variables.len() + 1);
        assert(basic_in(vars, bas[i as int], i as int));
        let coef = matrix[i][col];
        let rhs = matrix[i][0];
        assert(rows[i as int][col as int] == coef@);
        assert(rows[i as int][0] == rhs@);
        if coef.is_positive() {
            match rhs.div(coef) {
                None => {
                    proof {
                        lemma_leaving_overflow(
                            rows,
                            vars,
                            bas,
                            col as int,
                            phase_one,
                            (i + 1) as nat,
                            matrix.len() as nat,
                        );
                    }
                    return Leaving::Overflow;
                },
                Some(q) => {
                    match best {
                        Some((b, m)) => {
                            if phase_one && q.same(m) && variables[basis[i]].is_artificial {
                                best = Some((i, m));
                            } else if !q.is_negative() && q.lt(m) {
                                best = Some((i, q));
                            }
                        },
                        None => {
                            if !q.is_negative() {
                                best = Some((i, q));
                            }
                        },
                    }
                },
            }
        }
        i += 1;
    }
    proof {
        lemma_leaving_range(rows, vars, bas, col as int, phase_one, matrix.len() as nat);
        assert forall|i: int| 0 <= i < rows.len() implies (#[trigger] rows[i])[0].den > 0
            && rows[i][col as int].den > 0 by {
            broadcast use lemma_view_den_positive;
            assert(rows[i].len() == variables.len() + 1);
        }
        lemma_leaving_row_least(rows, vars, bas, col as int, phase_one);
    }
    match best {
        None => Leaving::Unbounded,
        Some((b, _)) => Leaving::Row(b),
    }
}

/// The model of a row that may be missing.
pub open spec fn option_row_view(r: Option<Vec<Rational>>) -> Option<Seq<Ratio>> {
    match r {
        Some(v) => Some(row_view(v@)),
        None => None,
    }
}

/// An entry of the leaving row after scaling: zero where the entry is within
/// the tolerance, the entry over the pivot otherwise.
pub open spec fn scaled_entry(x: Ratio, pivot: Ratio) -> Option<Ratio> {
    if negligible(x) {
        Some(Ratio::zero())
    } else {
        checked(x.over(pivot))
    }
}

/// The leaving row scaled by the pivot; `None` where an entry leaves the
/// stored range.
pub open spec fn scaled_row(row: Seq<Ratio>, pivot: Ratio) -> Option<Seq<Ratio>> {
    if forall|j: int| 0 <= j < row.len() ==> (#[trigger] scaled_entry(row[j], pivot)) is Some {
        Some(Seq::new(row.len(), |j: int| scaled_entry(row[j], pivot).unwrap()))
    } else {
        None
    }
}

/// An entry `x` of another row less `coeff` times the entry `p` of the scaled
/// leaving row.
pub open spec fn reduced_entry(x: Ratio, coeff: Ratio, p: Ratio) -> Option<Ratio> {
    match checked(coeff.times(p)) {
        None => None,
        Some(t) => checked(x.minus(t)),
    }
}

/// A row less `coeff` times the scaled leaving row `prow`; `None` where an
/// entry leaves the stored range.
pub open spec fn reduced_row(row: Seq<Ratio>, coeff: Ratio, prow: Seq<Ratio>) -> Option<
    Seq<Ratio>,
> {
    if forall|j: int|
        0 <= j < row.len() ==> (#[trigger] reduced_entry(row[j], coeff, prow[j])) is Some {
        Some(Seq::new(row.len(), |j: int| reduced_entry(row[j], coeff, prow[j]).unwrap()))
    } else {
        None
    }
}

/// Row `i` after the pivot on row `l` and column `c`: the scaled leaving row
/// in place of row `l`; a row whose entry in column `c` is within the tolerance
/// as it was; any other row with the entering column cleared.
pub open spec fn next_row(row: Seq<Ratio>, i: int, l: int, c: int, prow: Seq<Ratio>) -> Option<
    Seq<Ratio>,
> {
    if i == l {
        Some(prow)
    } else if negligible(row[c]) {
        Some(row)
    } else {
        reduced_row(row, row[c], prow)
    }
}

/// Scales the leaving row by the pivot.
pub fn scale_row(row: &Vec<Rational>, pivot: Rational) -> (r: Option<Vec<Rational>>)
    requires
        !pivot@.is_zero(),
    ensures
        option_row_view(r) == scaled_row(row_view(row@), pivot@),
{
    let ghost rv = row_view(row@);
    let mut out: Vec<Rational> = Vec::new();
    let mut j: usize = 0;
    while j < row.len()
        invariant
            j <= row.len(),
            out.len() == j,
            !pivot@.is_zero(),
            rv == row_view(row@),
            forall|k: int| 0 <= k < j ==> scaled_entry(#[trigger] rv[k], pivot@) == Some(out[k]@),
        decreases row.len() - j,
    {
        let x = row[j];
        assert(rv[j as int] == x@);
        if is_negligible(x) {
            out.push(Rational::zero());
        } else {
            match x.div(pivot) {
                None => {
                    assert(scaled_entry(rv[j as int], pivot@) is None);
                    return None;
                },
                Some(q) => {
                    out.push(q);
                },
            }
        }
        j += 1;
    }
    assert(row_view(out@) =~= scaled_row(rv, pivot@).unwrap());
    Some(out)
}

/// Copies a row.
pub fn copy_row(row: &Vec<Rational>) -> (r: Vec<Rational>)
    ensures
        r@ == row@,
{
    let mut out: Vec<Rational> = Vec::new();
    let mut j: usize = 0;
    while j < row.len()
        invariant
            j <= row.len(),
            out.len() == j,
            forall|k: int| 0 <= k < j ==> out[k] == row[k],
        decreases row.len() - j,
    {
        out.push(row[j]);
        j += 1;
    }
    assert(out@ =~= row@);
    out
}

/// Computes row `i` after the pivot on row `l` and column `c`, from the row as
/// it was and the scaled leaving row.
pub fn next_row_of(row: &Vec<Rational>, i: usize, l: usize, c: usize, prow: &Vec<Rational>) -> (r:
    Option<Vec<Rational>>)
    requires
        c < row.len(),
        prow.len() == row.len(),
    ensures
        option_row_view(r) == next_row(row_view(row@), i as int, l as int, c as int, row_view(prow@)),
{
    if i == l {
        return Some(copy_row(prow));
    }
    let coeff = row[c];
    let ghost rv = row_view(row@);
    let ghost pv = row_view(prow@);
    assert(rv[c as int] == coeff@);
    if is_negligible(coeff) {
        return Some(copy_row(row));
    }
    let mut out: Vec<Rational> = Vec::new();
    let mut j: usize = 0;
    while j < row.len()
        invariant
            j <= row.len(),
            out.len() == j,
            prow.len() == row.len(),
            c < row.len(),
            i != l,
            rv[c as int] == coeff@,
            !negligible(coeff@),
            rv == row_view(row@),
            pv == row_view(prow@),
            forall|k: int|
                0 <= k < j ==> reduced_entry(#[trigger] rv[k], coeff@, pv[k]) == Some(out[k]@),
        decreases row.len() - j,
    {
        let x = row[j];
        let p = prow[j];
        assert(rv[j as int] == x@);
        assert(pv[j as int] == p@);
        match coeff.mul(p) {
            None => {
                assert(reduced_entry(rv[j as int], coeff@, pv[j as int]) is None);
                return None;
            },
            Some(t) => match x.sub(t) {
                None => {
                    assert(reduced_entry(rv[j as int], coeff@, pv[j as int]) is None);
                    return None;
                },
                Some(y) => {
                    out.push(y);
                },
            },
        }
        j += 1;
    }
    assert(row_view(out@) =~= reduced_row(rv, coeff@, pv).unwrap());
    Some(out)
}

/// The model of a tableau: the matrix, the variables, and for each row the
/// index of its basic variable.
pub struct TableauModel {
    pub rows: Seq<Seq<Ratio>>,
    pub vars: Seq<VarModel>,
    pub basis: Seq<int>,
}

impl TableauModel {
    /// The tableau is one that the kernel accepts.
    pub open spec fn wf(self) -> bool {
        tableau_wf(self.rows, self.vars, self.basis)
    }
}

/// The model of a tableau held in three vectors.
pub open spec fn model(m: Seq<Vec<Rational>>, v: Seq<Variable>, b: Seq<usize>) -> TableauModel {
    TableauModel { rows: matrix_view(m), vars: vars_view(v), basis: index_view(b) }
}

/// What each variable offers as entering variable.
pub open spec fn candidates(t: TableauModel, phase_two: bool) -> Seq<CostModel> {
    Seq::new(t.vars.len(), |j: int| candidate(t.rows, t.vars, t.basis, phase_two, j))
}

/// Every row after the pivot on row `l` and column `c`, given the scaled
/// leaving row; `None` where an entry leaves the stored range.
pub open spec fn reduced_rows(rows: Seq<Seq<Ratio>>, l: int, c: int, prow: Seq<Ratio>) -> Option<
    Seq<Seq<Ratio>>,
> {
    if forall|i: int| 0 <= i < rows.len() ==> (#[trigger] next_row(rows[i], i, l, c, prow)) is Some {
        Some(Seq::new(rows.len(), |i: int| next_row(rows[i], i, l, c, prow).unwrap()))
    } else {
        None
    }
}

/// The matrix after the pivot on row `l` and column `c`.
pub open spec fn next_rows(rows: Seq<Seq<Ratio>>, l: int, c: int) -> Option<Seq<Seq<Ratio>>> {
    match scaled_row(rows[l], rows[l][c]) {
        None => None,
        Some(prow) => reduced_rows(rows, l, c, prow),
    }
}

/// The variables after variable `e` has taken the place of the basic variable
/// of row `l`.
pub open spec fn next_vars(vars: Seq<VarModel>, basis: Seq<int>, l: int, e: int) -> Seq<VarModel> {
    vars.update(
        basis[l],
        VarModel { in_base: false, row: usize::MAX as int, ..vars[basis[l]] },
    ).update(e, VarModel { in_base: true, row: l, ..vars[e] })
}

/// How one call of the kernel ended.
#[derive(Clone, Copy, Debug, PartialEq, Eq, Structural)]
pub enum Step {
    /// No reduced cost is negative: the basis is optimal and nothing changed.
    Optimal,
    /// No row limits the entering variable: nothing changed.
    Unbounded,
    /// One pivot was made.
    Pivoted,
    /// A value left the stored range: nothing changed.
    Overflow,
}

/// One iteration of the kernel: how it ends, and the tableau after it.
pub open spec fn step(t: TableauModel, phase_one: bool, phase_two: bool) -> (Step, TableauModel) {
    match entering(candidates(t, phase_two)) {
        Entering::Overflow => (Step::Overflow, t),
        Entering::Optimal => (Step::Optimal, t),
        Entering::Column(e) => match leaving(t.rows, t.vars, t.basis, e + 1, phase_one) {
            Leaving::Overflow => (Step::Overflow, t),
            Leaving::Unbounded => (Step::Unbounded, t),
            Leaving::Row(l) => match next_rows(t.rows, l as int, e + 1) {
                None => (Step::Overflow, t),
                Some(rows) => (
                    Step::Pivoted,
                    TableauModel {
                        rows,
                        vars: next_vars(t.vars, t.basis, l as int, e as int),
                        basis: t.basis.update(l as int, e as int),
                    },
                ),
            },
        },
    }
}

/// The entering variable is one of the variables and is not basic.
pub proof fn lemma_entering_range(t: TableauModel, phase_two: bool)
    requires
        t.vars.len() <= usize::MAX,
    ensures
        match entering(candidates(t, phase_two)) {
            Entering::Column(e) => e < t.vars.len() && !t.vars[e as int].in_base,
            _ => true,
        },
{
    let c = candidates(t, phase_two);
    lemma_best_candidate_range(c, c.len());
}

/// A pivot keeps the tableau's shape and its basis in order.
pub proof fn lemma_pivot_wf(t: TableauModel, l: int, e: int, rows: Seq<Seq<Ratio>>)
    requires
        t.wf(),
        0 <= l < t.rows.len(),
        0 <= e < t.vars.len(),
        !t.vars[e].in_base,
        next_rows(t.rows, l, e + 1) == Some(rows),
    ensures
        (TableauModel {
            rows,
            vars: next_vars(t.vars, t.basis, l, e),
            basis: t.basis.update(l, e),
        }).wf(),
{
    let vars = next_vars(t.vars, t.basis, l, e);
    let basis = t.basis.update(l, e);
    let lv = t.basis[l];
    let prow = scaled_row(t.rows[l], t.rows[l][e + 1]).unwrap();
    assert(basic_in(t.vars, lv, l));
    assert forall|i: int| 0 <= i < rows.len() implies (#[trigger] rows[i]).len() == vars.len()
        + 1 by {
        assert(t.rows[i].len() == t.vars.len() + 1);
        assert(t.rows[l].len() == t.vars.len() + 1);
        assert(next_row(t.rows[i], i, l, e + 1, prow) is Some);
    }
    assert forall|i: int| 0 <= i < basis.len() implies basic_in(vars, #[trigger] basis[i], i) by {
        assert(basic_in(t.vars, t.basis[i], i));
    }
    assert forall|j: int| 0 <= j < vars.len() && (#[trigger] vars[j]).in_base implies 0
        <= vars[j].row < basis.len() && basis[vars[j].row] == j by {
        if j != e {
            assert(t.vars[j].in_base);
        }
    }
}

/// Runs one iteration of the kernel on the tableau: at most one pivot.
///
/// In the first phase (`phase_one`) ties of the ratio test go to rows whose
/// basic variable is artificial; in the second (`phase_two`) no artificial
/// variable enters.
pub fn pivot_step(
    matrix: &mut Vec<Vec<Rational>>,
    variables: &mut Vec<Variable>,
    basis: &mut Vec<usize>,
    phase_one: bool,
    phase_two: bool,
) -> (s: Step)
    requires
        model(old(matrix)@, old(variables)@, old(basis)@).wf(),
    ensures
        (s, model(final(matrix)@, final(variables)@, final(basis)@)) == step(
            model(old(matrix)@, old(variables)@, old(basis)@),
            phase_one,
            phase_two,
        ),
        model(final(matrix)@, final(variables)@, final(basis)@).wf(),
        final(matrix).len() == old(matrix).len(),
        final(variables).len() == old(variables).len(),
{
    let ghost t = model(matrix@, variables@, basis@);
    let cands = par_candidates(matrix, variables, basis, phase_two);
    proof {
        assert(t.vars.len() == variables.len());
        lemma_entering_range(t, phase_two);
    }
    match select_entering(&cands) {
        Entering::Overflow => Step::Overflow,
        Entering::Optimal => Step::Optimal,
        Entering::Column(e) => {
            let col: usize = e + 1;
            match select_leaving(matrix, variables, basis, col, phase_one) {
                Leaving::Overflow => Step::Overflow,
                Leaving::Unbounded => Step::Unbounded,
                Leaving::Row(l) => {
                    assert(t.rows[l as int].len() == variables.len() + 1);
                    let pivot = matrix[l][col];
                    assert(t.rows[l as int][col as int] == pivot@);
                    assert(t.rows[l as int] == row_view(matrix[l as int]@));
                    match scale_row(&matrix[l], pivot) {
                        None => Step::Overflow,
                        Some(prow) => {
                            assert(row_view(prow@).len() == t.rows[l as int].len());
                            assert(prow.len() == variables.len() + 1);
                            match par_next_rows(matrix, l, col, &prow) {
                                None => Step::Overflow,
                                Some(rows) => {
                                    assert(matrix_view(rows@).len() == t.rows.len());
                                    proof {
                                        lemma_pivot_wf(t, l as int, e as int, matrix_view(rows@));
                                    }
                                    assert(basic_in(t.vars, t.basis[l as int], l as int));
                                    let lv: usize = basis[l];
                                    let mut leaver = variables[lv];
                                    leaver.in_base = false;
                                    leaver.row = usize::MAX;
                                    variables.set(lv, leaver);
                                    let mut enterer = variables[e];
                                    enterer.in_base = true;
                                    enterer.row = l;
                                    variables.set(e, enterer);
                                    basis.set(l, e);
                                    *matrix = rows;
                                    assert(vars_view(variables@) =~= next_vars(
                                        t.vars,
                                        t.basis,
                                        l as int,
                                        e as int,
                                    ));
                                    assert(index_view(basis@) =~= t.basis.update(
                                        l as int,
                                        e as int,
                                    ));
                                    Step::Pivoted
                                },
                            }
                        },
                    }
                },
            }
        },
    }
}

} // verus!
