//! The phase drivers: repeated pivoting in penalty mode or in two phases, the
//! check of the result against the constraints as given, and the recovery of
//! the assignment and of the objective.

use crate::error::LpError;
use crate::parallel::par_row_checks;
use crate::pivot::{
    basic_costs, checked, column, copy_row, dot, lemma_dot_none, model, pivot_step,
    scalar_product_column, step, Step, TableauModel,
};
use crate::rational::{Ratio, Rational};
use crate::tableau::{
    basic_in, basis_wf, epsilon, has_basic, index_view, is_negligible, matrix_view, negligible,
    rectangular, row_view, tolerance, vars_view, vars_wf, Sense, VarModel, Variable,
};
use vstd::prelude::*;

verus! {

/// The variable that is basic in row `i`.
pub open spec fn basic_of(vars: Seq<VarModel>, i: int) -> int {
    choose|j: int| basic_in(vars, j, i)
}

/// For each of the `m` rows, the variable that is basic in it.
pub open spec fn basis_of(vars: Seq<VarModel>, m: int) -> Seq<int> {
    Seq::new(m as nat, |i: int| basic_of(vars, i))
}

/// The basis of well-formed variables is in order.
pub proof fn lemma_basis_of_wf(vars: Seq<VarModel>, m: int)
    requires
        m >= 0,
        vars_wf(vars, m),
    ensures
        basis_wf(vars, basis_of(vars, m)),
{
    let basis = basis_of(vars, m);
    assert forall|i: int| 0 <= i < basis.len() implies basic_in(vars, #[trigger] basis[i], i) by {
        assert(has_basic(vars, i));
    }
    assert forall|j: int| 0 <= j < vars.len() && (#[trigger] vars[j]).in_base implies 0
        <= vars[j].row < basis.len() && basis[vars[j].row] == j by {
        let i = vars[j].row;
        assert(has_basic(vars, i));
        assert(basic_in(vars, basis[i], i));
    }
}

/// Finds, for each row of a tableau of `m` rows, the variable that is basic in
/// it.
pub fn find_basis(variables: &Vec<Variable>, m: usize) -> (basis: Vec<usize>)
    requires
        vars_wf(vars_view(variables@), m as int),
    ensures
        index_view(basis@) == basis_of(vars_view(variables@), m as int),
        basis_wf(vars_view(variables@), index_view(basis@)),
{
    let ghost vars = vars_view(variables@);
    let mut basis: Vec<usize> = Vec::new();
    let mut i: usize = 0;
    while i < m
        invariant
            i <= m,
            basis.len() == i,
            vars == vars_view(variables@),
            vars_wf(vars, m as int),
            forall|r: int| 0 <= r < i ==> #[trigger] basis[r] as int == basic_of(vars, r),
        decreases m - i,
    {
        assert(has_basic(vars, i as int));
        let ghost w = basic_of(vars, i as int);
        let mut j: usize = 0;
        while j < variables.len() && !(variables[j].in_base && variables[j].row == i)
            invariant
                j <= variables.len(),
                vars == vars_view(variables@),
                0 <= w < variables.len(),
                basic_in(vars, w, i as int),
                j <= w,
            decreases variables.len() - j,
        {
            assert(vars[j as int] == variables[j as int]@);
            j += 1;
        }
        assert(vars[j as int] == variables[j as int]@);
        assert(basic_in(vars, j as int, i as int));
        assert(j as int == w);
        basis.push(j);
        i += 1;
    }
    proof {
        assert(index_view(basis@) =~= basis_of(vars, m as int));
        lemma_basis_of_wf(vars, m as int);
    }
    basis
}

/// How a run of the kernel ended.
#[derive(Clone, Copy, Debug, PartialEq, Eq, Structural)]
pub enum RunEnd {
    /// The kernel found the basis optimal.
    Optimal,
    /// The kernel found no leaving row.
    Unbounded,
    /// A value left the stored range.
    Overflow,
    /// The allowed number of kernel iterations was used up.
    IterationLimit,
}

/// Repeated iterations of the kernel, at most `fuel` of them: how the run
/// ends, the tableau at its end, and the iterations left.
pub open spec fn run(t: TableauModel, phase_one: bool, phase_two: bool, fuel: nat) -> (
    RunEnd,
    TableauModel,
    nat,
)
    decreases fuel,
{
    if fuel == 0 {
        (RunEnd::IterationLimit, t, 0)
    } else {
        let (s, next) = step(t, phase_one, phase_two);
        match s {
            Step::Optimal => (RunEnd::Optimal, next, (fuel - 1) as nat),
            Step::Unbounded => (RunEnd::Unbounded, next, (fuel - 1) as nat),
            Step::Overflow => (RunEnd::Overflow, next, (fuel - 1) as nat),
            Step::Pivoted => run(next, phase_one, phase_two, (fuel - 1) as nat),
        }
    }
}

/// Runs the kernel until it reports the end, for at most `fuel` iterations.
/// Returns how the run ended and the iterations left.
pub fn run_phase(
    matrix: &mut Vec<Vec<Rational>>,
    variables: &mut Vec<Variable>,
    basis: &mut Vec<usize>,
    phase_one: bool,
    phase_two: bool,
    fuel: usize,
) -> (r: (RunEnd, usize))
    requires
        model(old(matrix)@, old(variables)@, old(basis)@).wf(),
    ensures
        (r.0, model(final(matrix)@, final(variables)@, final(basis)@), r.1 as nat) == run(
            model(old(matrix)@, old(variables)@, old(basis)@),
            phase_one,
            phase_two,
            fuel as nat,
        ),
        model(final(matrix)@, final(variables)@, final(basis)@).wf(),
        r.1 <= fuel,
        final(matrix).len() == old(matrix).len(),
        final(variables).len() == old(variables).len(),
{
    let ghost start = model(matrix@, variables@, basis@);
    let mut left: usize = fuel;
    loop
        invariant
            left <= fuel,
            matrix.len() == old(matrix).len(),
            variables.len() == old(variables).len(),
            start == model(old(matrix)@, old(variables)@, old(basis)@),
            model(matrix@, variables@, basis@).wf(),
            run(start, phase_one, phase_two, fuel as nat) == run(
                model(matrix@, variables@, basis@),
                phase_one,
                phase_two,
                left as nat,
            ),
        decreases left,
    {
        if left == 0 {
            return (RunEnd::IterationLimit, 0);
        }
        let s = pivot_step(matrix, variables, basis, phase_one, phase_two);
        left -= 1;
        match s {
            Step::Optimal => {
                return (RunEnd::Optimal, left);
            },
            Step::Unbounded => {
                return (RunEnd::Unbounded, left);
            },
            Step::Overflow => {
                return (RunEnd::Overflow, left);
            },
            Step::Pivoted => {},
        }
    }
}

/// The shape that the drivers ask of a problem: a rectangular matrix, variables
/// numbered by their columns, and exactly one basic variable for each row.
pub open spec fn problem_wf(rows: Seq<Seq<Ratio>>, vars: Seq<VarModel>) -> bool {
    rectangular(rows, vars.len() as int) && vars_wf(vars, rows.len() as int)
}

/// A tableau that the kernel accepts has the shape that the drivers ask for.
pub proof fn lemma_tableau_problem_wf(t: TableauModel)
    requires
        t.wf(),
    ensures
        problem_wf(t.rows, t.vars),
{
    assert forall|i: int| 0 <= i < t.rows.len() implies #[trigger] has_basic(t.vars, i) by {
        assert(basic_in(t.vars, t.basis[i], i));
    }
}

/// Whether a matrix and a list of variables have the shape that the drivers ask
/// for.
pub fn is_problem(matrix: &Vec<Vec<Rational>>, variables: &Vec<Variable>) -> (b: bool)
    ensures
        b == problem_wf(matrix_view(matrix@), vars_view(variables@)),
{
    let ghost rows = matrix_view(matrix@);
    let ghost vars = vars_view(variables@);
    let n = variables.len();
    let m = matrix.len();
    let mut i: usize = 0;
    while i < m
        invariant
            i <= m,
            m == matrix.len(),
            n == variables.len(),
            rows == matrix_view(matrix@),
            forall|r: int| 0 <= r < i ==> (#[trigger] rows[r]).len() == n + 1,
        decreases m - i,
    {
        assert(rows[i as int].len() == matrix[i as int].len());
        if matrix[i].len() == 0 || matrix[i].len() - 1 != n {
            return false;
        }
        i += 1;
    }
    let mut owner: Vec<Option<usize>> = Vec::new();
    let mut r: usize = 0;
    while r < m
        invariant
            r <= m,
            owner.len() == r,
            forall|k: int| 0 <= k < r ==> (#[trigger] owner[k]) is None,
        decreases m - r,
    {
        owner.push(None);
        r += 1;
    }
    let mut j: usize = 0;
    while j < n
        invariant
            j <= n,
            n == variables.len(),
            m == matrix.len(),
            owner.len() == m,
            vars == vars_view(variables@),
            forall|a: int| 0 <= a < j ==> (#[trigger] vars[a]).column == a + 1,
            forall|a: int| 0 <= a < j && (#[trigger] vars[a]).in_base ==> 0 <= vars[a].row < m,
            forall|a: int, b: int|
                0 <= a < j && 0 <= b < j && (#[trigger] vars[a]).in_base && (
                #[trigger] vars[b]).in_base && vars[a].row == vars[b].row ==> a == b,
            forall|k: int|
                0 <= k < m ==> match #[trigger] owner[k] {
                    Some(w) => w < j && basic_in(vars, w as int, k),
                    None => forall|a: int| 0 <= a < j ==> !basic_in(vars, a, k),
                },
        decreases n - j,
    {
        let v = variables[j];
        assert(vars[j as int] == v@);
        if v.column != j + 1 {
            return false;
        }
        if v.in_base {
            if v.row >= m {
                return false;
            }
            match owner[v.row] {
                Some(w) => {
                    assert(basic_in(vars, w as int, v.row as int));
                    assert(vars[w as int].in_base && vars[j as int].in_base && vars[w as int].row
                        == vars[j as int].row && w != j);
                    return false;
                },
                None => {},
            }
            assert forall|a: int| 0 <= a < j && (#[trigger] vars[a]).in_base implies vars[a].row
                != v.row by {
                if vars[a].row == v.row {
                    assert(basic_in(vars, a, v.row as int));
                }
            }
            owner.set(v.row, Some(j));
        }
        j += 1;
    }
    let mut k: usize = 0;
    while k < m
        invariant
            k <= m,
            owner.len() == m,
            m == matrix.len(),
            n == variables.len(),
            rows == matrix_view(matrix@),
            vars == vars_view(variables@),
            forall|i: int|
                0 <= i < m ==> match #[trigger] owner[i] {
                    Some(w) => w < n && basic_in(vars, w as int, i),
                    None => forall|a: int| 0 <= a < n ==> !basic_in(vars, a, i),
                },
            forall|i: int| 0 <= i < k ==> #[trigger] has_basic(vars, i),
        decreases m - k,
    {
        match owner[k] {
            None => {
                assert(!has_basic(vars, k as int));
                return false;
            },
            Some(w) => {
                assert(basic_in(vars, w as int, k as int));
            },
        }
        k += 1;
    }
    true
}

/// The value that the basis gives variable `j`: the right-hand side of its row
/// where it is basic, zero otherwise.
pub open spec fn value_of(rows: Seq<Seq<Ratio>>, vars: Seq<VarModel>, j: int) -> Ratio {
    if vars[j].in_base {
        rows[vars[j].row][0]
    } else {
        Ratio::zero()
    }
}

/// The point that the basis stands for, by variable, with every artificial
/// variable at zero.
pub open spec fn point(rows: Seq<Seq<Ratio>>, vars: Seq<VarModel>) -> Seq<Ratio> {
    Seq::new(
        vars.len(),
        |j: int|
            if vars[j].is_artificial {
                Ratio::zero()
            } else {
                value_of(rows, vars, j)
            },
    )
}

/// The coefficients of a row: the row without its right-hand side.
pub open spec fn coefficients(row: Seq<Ratio>) -> Seq<Ratio> {
    row.subrange(1, row.len() as int)
}

/// What the check of a row, or of all rows, found.
#[derive(Clone, Copy, Debug, PartialEq, Eq, Structural)]
pub enum RowCheck {
    /// The point gives the row its right-hand side, to within the tolerance.
    Holds,
    /// It does not.
    Fails,
    /// A value left the stored range.
    Overflow,
}

/// Whether the point `x` gives `row` its right-hand side, to within the
/// tolerance.
pub open spec fn check_row(row: Seq<Ratio>, x: Seq<Ratio>) -> RowCheck {
    match dot(coefficients(row), x, x.len()) {
        None => RowCheck::Overflow,
        Some(s) => match checked(row[0].minus(s)) {
            None => RowCheck::Overflow,
            Some(d) => if negligible(d) {
                RowCheck::Holds
            } else {
                RowCheck::Fails
            },
        },
    }
}

/// The check of the first `k` rows in order: what the first row that does not
/// hold gives, `Holds` where all do.
pub open spec fn check_rows(rows: Seq<Seq<Ratio>>, x: Seq<Ratio>, k: nat) -> RowCheck
    decreases k,
{
    if k == 0 {
        RowCheck::Holds
    } else {
        match check_rows(rows, x, (k - 1) as nat) {
            RowCheck::Holds => check_row(rows[k - 1], x),
            other => other,
        }
    }
}

/// Where the check of all rows holds, each row holds.
pub proof fn lemma_check_rows_holds(rows: Seq<Seq<Ratio>>, x: Seq<Ratio>, k: nat, i: int)
    requires
        check_rows(rows, x, k) is Holds,
        0 <= i < k,
    ensures
        check_row(rows[i], x) is Holds,
    decreases k,
{
    if i < k - 1 {
        lemma_check_rows_holds(rows, x, (k - 1) as nat, i);
    }
}

/// Computes the point that the basis stands for.
pub fn basic_point(matrix: &Vec<Vec<Rational>>, variables: &Vec<Variable>) -> (x: Vec<Rational>)
    requires
        problem_wf(matrix_view(matrix@), vars_view(variables@)),
    ensures
        row_view(x@) == point(matrix_view(matrix@), vars_view(variables@)),
{
    let ghost rows = matrix_view(matrix@);
    let ghost vars = vars_view(variables@);
    let mut x: Vec<Rational> = Vec::new();
    let mut j: usize = 0;
    while j < variables.len()
        invariant
            j <= variables.len(),
            x.len() == j,
            rows == matrix_view(matrix@),
            vars == vars_view(variables@),
            problem_wf(rows, vars),
            forall|k: int| 0 <= k < j ==> (#[trigger] x[k])@ == point(rows, vars)[k],
        decreases variables.len() - j,
    {
        let v = variables[j];
        assert(vars[j as int] == v@);
        if v.is_artificial || !v.in_base {
            x.push(Rational::zero());
        } else {
            assert(rows[v.row as int].len() == variables.len() + 1);
            x.push(matrix[v.row][0]);
        }
        j += 1;
    }
    assert(row_view(x@) =~= point(rows, vars));
    x
}

/// Computes the sum of the products of the entries of `x` and `y` at the same
/// place.
pub fn scalar_product(x: &Vec<Rational>, y: &Vec<Rational>) -> (r: Option<Rational>)
    requires
        x.len() == y.len(),
    ensures
        match r {
            Some(v) => dot(row_view(x@), row_view(y@), y.len() as nat) == Some(v@),
            None => dot(row_view(x@), row_view(y@), y.len() as nat) is None,
        },
{
    let ghost xs = row_view(x@);
    let ghost ys = row_view(y@);
    let mut acc = Rational::zero();
    let mut j: usize = 0;
    while j < y.len()
        invariant
            j <= y.len(),
            x.len() == y.len(),
            xs == row_view(x@),
            ys == row_view(y@),
            dot(xs, ys, j as nat) == Some(acc@),
        decreases y.len() - j,
    {
        let a = x[j];
        let b = y[j];
        assert(xs[j as int] == a@);
        assert(ys[j as int] == b@);
        match a.mul(b) {
            None => {
                proof {
                    lemma_dot_none(xs, ys, (j + 1) as nat, y.len() as nat);
                }
                return None;
            },
            Some(p) => match acc.add(p) {
                None => {
                    proof {
                        lemma_dot_none(xs, ys, (j + 1) as nat, y.len() as nat);
                    }
                    return None;
                },
                Some(s) => {
                    acc = s;
                },
            },
        }
        j += 1;
    }
    Some(acc)
}

/// Copies the coefficients of a row.
pub fn coefficients_of(row: &Vec<Rational>) -> (r: Vec<Rational>)
    requires
        row.len() >= 1,
    ensures
        row_view(r@) == coefficients(row_view(row@)),
        r.len() == row.len() - 1,
{
    let mut out: Vec<Rational> = Vec::new();
    let mut j: usize = 1;
    while j < row.len()
        invariant
            1 <= j <= row.len(),
            out.len() == j - 1,
            forall|k: int| 0 <= k < out.len() ==> out[k] == row[k + 1],
        decreases row.len() - j,
    {
        out.push(row[j]);
        j += 1;
    }
    assert(row_view(out@) =~= coefficients(row_view(row@)));
    out
}

/// Checks one row against the point `x`.
pub fn check_row_at(row: &Vec<Rational>, x: &Vec<Rational>) -> (r: RowCheck)
    requires
        row.len() == x.len() + 1,
    ensures
        r == check_row(row_view(row@), row_view(x@)),
{
    let cs = coefficients_of(row);
    let rhs = row[0];
    assert(row_view(row@)[0] == rhs@);
    match scalar_product(&cs, x) {
        None => RowCheck::Overflow,
        Some(s) => match rhs.sub(s) {
            None => RowCheck::Overflow,
            Some(d) => if is_negligible(d) {
                RowCheck::Holds
            } else {
                RowCheck::Fails
            },
        },
    }
}

/// The check of each row against the point `x`, by row.
pub open spec fn row_checks(rows: Seq<Seq<Ratio>>, x: Seq<Ratio>) -> Seq<RowCheck> {
    Seq::new(rows.len(), |i: int| check_row(rows[i], x))
}

/// Checks every row against the point `x`: the rows are evaluated side by
/// side, and the first one in order that does not hold decides.
pub fn check_all_constraints(rows: &Vec<Vec<Rational>>, x: &Vec<Rational>) -> (r: RowCheck)
    requires
        rectangular(matrix_view(rows@), x.len() as int),
    ensures
        r == check_rows(matrix_view(rows@), row_view(x@), rows.len() as nat),
{
    let checks = par_row_checks(rows, x);
    let ghost rv = matrix_view(rows@);
    let ghost xv = row_view(x@);
    let mut i: usize = 0;
    while i < checks.len()
        invariant
            i <= checks.len(),
            checks.len() == rows.len(),
            checks@ == row_checks(rv, xv),
            rv == matrix_view(rows@),
            xv == row_view(x@),
            check_rows(rv, xv, i as nat) is Holds,
        decreases checks.len() - i,
    {
        let c = checks[i];
        assert(c == check_row(rv[i as int], xv));
        match c {
            RowCheck::Holds => {},
            RowCheck::Fails => {
                proof {
                    lemma_check_rows_stops(rv, xv, (i + 1) as nat, rows.len() as nat);
                }
                return RowCheck::Fails;
            },
            RowCheck::Overflow => {
                proof {
                    lemma_check_rows_stops(rv, xv, (i + 1) as nat, rows.len() as nat);
                }
                return RowCheck::Overflow;
            },
        }
        i += 1;
    }
    RowCheck::Holds
}

/// Once a row does not hold, the check of more rows gives the same.
pub proof fn lemma_check_rows_stops(rows: Seq<Seq<Ratio>>, x: Seq<Ratio>, k: nat, n: nat)
    requires
        k <= n,
        !(check_rows(rows, x, k) is Holds),
    ensures
        check_rows(rows, x, n) == check_rows(rows, x, k),
    decreases n,
{
    if k < n {
        lemma_check_rows_stops(rows, x, k, (n - 1) as nat);
    }
}

/// The variable stands for an unknown of the problem as given.
pub open spec fn is_structural(v: VarModel) -> bool {
    !v.is_slack && !v.is_artificial
}

/// The indices below `k` of the structural variables, in order.
pub open spec fn structural(vars: Seq<VarModel>, k: nat) -> Seq<int>
    decreases k,
{
    if k == 0 {
        Seq::empty()
    } else {
        let prev = structural(vars, (k - 1) as nat);
        if is_structural(vars[k - 1]) {
            prev.push(k - 1)
        } else {
            prev
        }
    }
}

/// The cost of a variable in the problem as given: the stored cost for a
/// maximisation, its opposite for a minimisation.
pub open spec fn given_cost(v: VarModel, sense: Sense) -> Ratio {
    match sense {
        Sense::Maximize => v.cost,
        Sense::Minimize => v.cost.negated(),
    }
}

/// The names of the structural variables, in order.
pub open spec fn structural_names(names: Seq<Seq<u8>>, vars: Seq<VarModel>) -> Seq<Seq<u8>> {
    let idx = structural(vars, vars.len());
    Seq::new(idx.len(), |k: int| names[idx[k]])
}

/// The values of the structural variables, in order.
pub open spec fn structural_values(rows: Seq<Seq<Ratio>>, vars: Seq<VarModel>) -> Seq<Ratio> {
    let idx = structural(vars, vars.len());
    Seq::new(idx.len(), |k: int| value_of(rows, vars, idx[k]))
}

/// The costs of the structural variables in the problem as given, in order.
pub open spec fn structural_costs(vars: Seq<VarModel>, sense: Sense) -> Seq<Ratio> {
    let idx = structural(vars, vars.len());
    Seq::new(idx.len(), |k: int| given_cost(vars[idx[k]], sense))
}

/// The model of a list of names.
pub open spec fn names_view(names: Seq<Vec<u8>>) -> Seq<Seq<u8>> {
    Seq::new(names.len(), |j: int| names[j]@)
}

/// The names of a list of named values.
pub open spec fn entry_names(e: Seq<(Vec<u8>, Rational)>) -> Seq<Seq<u8>> {
    Seq::new(e.len(), |k: int| e[k].0@)
}

/// The values of a list of named values.
pub open spec fn entry_values(e: Seq<(Vec<u8>, Rational)>) -> Seq<Ratio> {
    Seq::new(e.len(), |k: int| e[k].1@)
}

/// The value of an assignment under the given costs: the sum of each cost
/// times the value at the same place.
pub open spec fn evaluation(costs: Seq<Ratio>, values: Seq<Ratio>) -> Option<Ratio> {
    dot(costs, values, values.len())
}

/// Copies a name.
pub fn copy_name(name: &Vec<u8>) -> (r: Vec<u8>)
    ensures
        r@ == name@,
{
    let mut out: Vec<u8> = Vec::new();
    let mut j: usize = 0;
    while j < name.len()
        invariant
            j <= name.len(),
            out.len() == j,
            forall|k: int| 0 <= k < j ==> out[k] == name[k],
        decreases name.len() - j,
    {
        out.push(name[j]);
        j += 1;
    }
    assert(out@ =~= name@);
    out
}

/// Copies the values of a list of named values.
pub fn values_of(entries: &Vec<(Vec<u8>, Rational)>) -> (r: Vec<Rational>)
    ensures
        row_view(r@) == entry_values(entries@),
{
    let mut out: Vec<Rational> = Vec::new();
    let mut k: usize = 0;
    while k < entries.len()
        invariant
            k <= entries.len(),
            out.len() == k,
            forall|j: int| 0 <= j < k ==> out[j] == entries[j].1,
        decreases entries.len() - k,
    {
        out.push(entries[k].1);
        k += 1;
    }
    assert(row_view(out@) =~= entry_values(entries@));
    out
}

/// Evaluates an assignment under the given costs.
pub fn evaluate(costs: &Vec<Rational>, entries: &Vec<(Vec<u8>, Rational)>) -> (z: Option<Rational>)
    requires
        costs.len() == entries.len(),
    ensures
        match z {
            Some(v) => Some(v@) == evaluation(row_view(costs@), entry_values(entries@)),
            None => evaluation(row_view(costs@), entry_values(entries@)) is None,
        },
{
    let values = values_of(entries);
    scalar_product(costs, &values)
}

/// Reads the solution off the basis: the structural variables by name with
/// their values, and the objective, which is the value of that assignment
/// under the costs of the problem as given.
pub fn get_solution(
    matrix: &Vec<Vec<Rational>>,
    variables: &Vec<Variable>,
    names: &Vec<Vec<u8>>,
    sense: Sense,
) -> (r: Result<(Vec<(Vec<u8>, Rational)>, Rational), LpError>)
    requires
        problem_wf(matrix_view(matrix@), vars_view(variables@)),
        names.len() == variables.len(),
    ensures
        match r {
            Ok((entries, z)) => {
                &&& entry_names(entries@) == structural_names(
                    names_view(names@),
                    vars_view(variables@),
                )
                &&& entry_values(entries@) == structural_values(
                    matrix_view(matrix@),
                    vars_view(variables@),
                )
                &&& Some(z@) == evaluation(
                    structural_costs(vars_view(variables@), sense),
                    entry_values(entries@),
                )
            },
            Err(e) => e == LpError::Overflow && evaluation(
                structural_costs(vars_view(variables@), sense),
                structural_values(matrix_view(matrix@), vars_view(variables@)),
            ) is None,
        },
{
    let ghost rows = matrix_view(matrix@);
    let ghost vars = vars_view(variables@);
    let ghost nv = names_view(names@);
    let mut entries: Vec<(Vec<u8>, Rational)> = Vec::new();
    let mut costs: Vec<Rational> = Vec::new();
    let mut j: usize = 0;
    while j < variables.len()
        invariant
            j <= variables.len(),
            names.len() == variables.len(),
            rows == matrix_view(matrix@),
            vars == vars_view(variables@),
            nv == names_view(names@),
            problem_wf(rows, vars),
            entries.len() == structural(vars, j as nat).len(),
            costs.len() == entries.len(),
            forall|k: int|
                0 <= k < entries.len() ==> {
                    let i = #[trigger] structural(vars, j as nat)[k];
                    &&& 0 <= i < j
                    &&& entries[k].0@ == nv[i]
                    &&& entries[k].1@ == value_of(rows, vars, i)
                    &&& costs[k]@ == given_cost(vars[i], sense)
                },
        decreases variables.len() - j,
    {
        let v = variables[j];
        assert(vars[j as int] == v@);
        let ghost before = structural(vars, j as nat);
        if !v.is_slack && !v.is_artificial {
            let value = if v.in_base {
                assert(rows[v.row as int].len() == variables.len() + 1);
                matrix[v.row][0]
            } else {
                Rational::zero()
            };
            let cost = match sense {
                Sense::Maximize => v.cost,
                Sense::Minimize => v.cost.neg(),
            };
            entries.push((copy_name(&names[j]), value));
            costs.push(cost);
            assert(structural(vars, (j + 1) as nat) == before.push(j as int));
        } else {
            assert(structural(vars, (j + 1) as nat) == before);
        }
        j += 1;
    }
    assert(entry_names(entries@) =~= structural_names(nv, vars));
    assert(entry_values(entries@) =~= structural_values(rows, vars));
    assert(row_view(costs@) =~= structural_costs(vars, sense));
    match evaluate(&costs, &entries) {
        Some(z) => Ok((entries, z)),
        None => Err(LpError::Overflow),
    }
}

/// A solution: the structural variables by name with their values, and the
/// objective.
pub struct SolutionModel {
    pub names: Seq<Seq<u8>>,
    pub values: Seq<Ratio>,
    pub objective: Ratio,
}

/// The model of what a driver returns.
pub open spec fn result_view(r: Result<(Vec<(Vec<u8>, Rational)>, Rational), LpError>) -> Result<
    SolutionModel,
    LpError,
> {
    match r {
        Ok((entries, z)) => Ok(
            SolutionModel {
                names: entry_names(entries@),
                values: entry_values(entries@),
                objective: z@,
            },
        ),
        Err(e) => Err(e),
    }
}

/// The tableau from which a driver starts: the problem with its first basis.
pub open spec fn start_of(rows: Seq<Seq<Ratio>>, vars: Seq<VarModel>) -> TableauModel {
    TableauModel { rows, vars, basis: basis_of(vars, rows.len() as int) }
}

/// What is returned for a tableau that a driver has brought to its optimum:
/// the solution read off the basis, where the point of the basis satisfies
/// every row of the problem as given to within the tolerance.
pub open spec fn conclude(
    given: Seq<Seq<Ratio>>,
    t: TableauModel,
    names: Seq<Seq<u8>>,
    sense: Sense,
) -> Result<SolutionModel, LpError> {
    match check_rows(given, point(t.rows, t.vars), given.len()) {
        RowCheck::Fails => Err(LpError::Infeasible),
        RowCheck::Overflow => Err(LpError::Overflow),
        RowCheck::Holds => match evaluation(
            structural_costs(t.vars, sense),
            structural_values(t.rows, t.vars),
        ) {
            None => Err(LpError::Overflow),
            Some(z) => Ok(
                SolutionModel {
                    names: structural_names(names, t.vars),
                    values: structural_values(t.rows, t.vars),
                    objective: z,
                },
            ),
        },
    }
}

/// What the penalty driver returns for a problem, with at most `fuel`
/// iterations of the kernel.
pub open spec fn solve_penalty(
    rows: Seq<Seq<Ratio>>,
    vars: Seq<VarModel>,
    names: Seq<Seq<u8>>,
    sense: Sense,
    fuel: nat,
) -> Result<SolutionModel, LpError> {
    let (end, t, _) = run(start_of(rows, vars), false, false, fuel);
    match end {
        RunEnd::Unbounded => Err(LpError::Unbounded),
        RunEnd::Overflow => Err(LpError::Overflow),
        RunEnd::IterationLimit => Err(LpError::IterationLimit),
        RunEnd::Optimal => conclude(rows, t, names, sense),
    }
}

/// Copies a matrix.
pub fn copy_matrix(matrix: &Vec<Vec<Rational>>) -> (r: Vec<Vec<Rational>>)
    ensures
        matrix_view(r@) == matrix_view(matrix@),
{
    let mut out: Vec<Vec<Rational>> = Vec::new();
    let mut i: usize = 0;
    while i < matrix.len()
        invariant
            i <= matrix.len(),
            out.len() == i,
            forall|k: int| 0 <= k < i ==> (#[trigger] out[k])@ == matrix[k]@,
        decreases matrix.len() - i,
    {
        out.push(copy_row(&matrix[i]));
        i += 1;
    }
    assert(matrix_view(out@) =~= matrix_view(matrix@));
    out
}

/// Runs the kernel in penalty mode from the problem's first basis, for at most
/// `max_iterations` iterations. The artificial variables carry the penalty in
/// their costs.
pub fn big_m(matrix: &mut Vec<Vec<Rational>>, variables: &mut Vec<Variable>, max_iterations: usize) -> (r:
    (RunEnd, Vec<usize>))
    requires
        problem_wf(matrix_view(old(matrix)@), vars_view(old(variables)@)),
    ensures
        (r.0, model(final(matrix)@, final(variables)@, r.1@)) == ({
            let out = run(
                start_of(matrix_view(old(matrix)@), vars_view(old(variables)@)),
                false,
                false,
                max_iterations as nat,
            );
            (out.0, out.1)
        }),
        model(final(matrix)@, final(variables)@, r.1@).wf(),
        final(matrix).len() == old(matrix).len(),
        final(variables).len() == old(variables).len(),
{
    let mut basis = find_basis(variables, matrix.len());
    let (end, _) = run_phase(matrix, variables, &mut basis, false, false, max_iterations);
    (end, basis)
}

/// Finishes a solve on a tableau that a driver has brought to its optimum.
fn finish(
    given: &Vec<Vec<Rational>>,
    matrix: &Vec<Vec<Rational>>,
    variables: &Vec<Variable>,
    basis: &Vec<usize>,
    names: &Vec<Vec<u8>>,
    sense: Sense,
) -> (r: Result<(Vec<(Vec<u8>, Rational)>, Rational), LpError>)
    requires
        model(matrix@, variables@, basis@).wf(),
        rectangular(matrix_view(given@), variables.len() as int),
        names.len() == variables.len(),
    ensures
        result_view(r) == conclude(
            matrix_view(given@),
            model(matrix@, variables@, basis@),
            names_view(names@),
            sense,
        ),
{
    proof {
        lemma_tableau_problem_wf(model(matrix@, variables@, basis@));
    }
    let x = basic_point(matrix, variables);
    match check_all_constraints(given, &x) {
        RowCheck::Fails => Err(LpError::Infeasible),
        RowCheck::Overflow => Err(LpError::Overflow),
        RowCheck::Holds => get_solution(matrix, variables, names, sense),
    }
}

/// Solves a problem in penalty mode: pivots to the optimum, checks the point
/// found against every row of the problem as given, and reads the solution off
/// the basis.
///
/// Where a solution is returned, its point satisfies every row as given to
/// within the tolerance, and its objective is the value of the returned
/// assignment under the costs as given.
pub fn solve_system(
    matrix: &mut Vec<Vec<Rational>>,
    variables: &mut Vec<Variable>,
    names: &Vec<Vec<u8>>,
    sense: Sense,
    max_iterations: usize,
) -> (r: Result<(Vec<(Vec<u8>, Rational)>, Rational), LpError>)
    requires
        problem_wf(matrix_view(old(matrix)@), vars_view(old(variables)@)),
        names.len() == old(variables).len(),
    ensures
        result_view(r) == solve_penalty(
            matrix_view(old(matrix)@),
            vars_view(old(variables)@),
            names_view(names@),
            sense,
            max_iterations as nat,
        ),
        r is Ok ==> satisfies_all(
            matrix_view(old(matrix)@),
            point(matrix_view(final(matrix)@), vars_view(final(variables)@)),
        ),
        r is Ok ==> Some(r->Ok_0.1@) == evaluation(
            structural_costs(vars_view(final(variables)@), sense),
            entry_values(r->Ok_0.0@),
        ),
{
    let given = copy_matrix(matrix);
    let (end, basis) = big_m(matrix, variables, max_iterations);
    match end {
        RunEnd::Unbounded => Err(LpError::Unbounded),
        RunEnd::Overflow => Err(LpError::Overflow),
        RunEnd::IterationLimit => Err(LpError::IterationLimit),
        RunEnd::Optimal => {
            let r = finish(&given, matrix, variables, &basis, names, sense);
            proof {
                if r is Ok {
                    lemma_conclude_satisfies(
                        matrix_view(given@),
                        model(matrix@, variables@, basis@),
                        names_view(names@),
                        sense,
                    );
                }
            }
            r
        },
    }
}

/// The point `x` gives every row its right-hand side, to within the
/// tolerance.
pub open spec fn satisfies_all(rows: Seq<Seq<Ratio>>, x: Seq<Ratio>) -> bool {
    forall|i: int| 0 <= i < rows.len() ==> (#[trigger] check_row(rows[i], x)) is Holds
}

/// A solution is returned only for a point that satisfies every row of the
/// problem as given, and its objective is the value of its assignment under
/// the costs as given.
pub proof fn lemma_conclude_satisfies(
    given: Seq<Seq<Ratio>>,
    t: TableauModel,
    names: Seq<Seq<u8>>,
    sense: Sense,
)
    requires
        conclude(given, t, names, sense) is Ok,
    ensures
        satisfies_all(given, point(t.rows, t.vars)),
        Some(conclude(given, t, names, sense)->Ok_0.objective) == evaluation(
            structural_costs(t.vars, sense),
            conclude(given, t, names, sense)->Ok_0.values,
        ),
{
    let x = point(t.rows, t.vars);
    assert forall|i: int| 0 <= i < given.len() implies (#[trigger] check_row(given[i], x))
        is Holds by {
        lemma_check_rows_holds(given, x, given.len(), i);
    }
}

/// The objective of the first phase: the basic costs times the right-hand
/// sides.
pub open spec fn phase_one_objective(t: TableauModel) -> Option<Ratio> {
    dot(basic_costs(t.vars, t.basis), column(t.rows, 0), t.rows.len())
}

/// Variable `j` is artificial and basic with a right-hand side above the
/// tolerance.
pub open spec fn artificial_at(rows: Seq<Seq<Ratio>>, vars: Seq<VarModel>, j: int) -> bool {
    0 <= j < vars.len() && vars[j].in_base && vars[j].is_artificial && epsilon().lt(
        rows[vars[j].row][0],
    )
}

/// Some artificial variable is basic with a right-hand side above the
/// tolerance.
pub open spec fn artificial_left(rows: Seq<Seq<Ratio>>, vars: Seq<VarModel>) -> bool {
    exists|j: int| #[trigger] artificial_at(rows, vars, j)
}

/// The variables with their costs replaced by `costs`.
pub open spec fn with_costs(vars: Seq<VarModel>, costs: Seq<Ratio>) -> Seq<VarModel> {
    Seq::new(vars.len(), |j: int| VarModel { cost: costs[j], ..vars[j] })
}

/// How the two phases ended.
#[derive(Clone, Copy, Debug, PartialEq, Eq, Structural)]
pub enum PhaseEnd {
    /// The second phase found the basis optimal.
    Optimal,
    /// The second phase found no leaving row.
    Unbounded,
    /// The first phase left its objective at the tolerance or farther from
    /// zero, or an artificial variable basic above the tolerance.
    Infeasible,
    /// A value left the stored range.
    Overflow,
    /// The allowed number of kernel iterations was used up.
    IterationLimit,
}

/// The two phases on a tableau that holds the costs of the first phase, with
/// the costs of the second phase in `costs` and at most `fuel` iterations of
/// the kernel over both: how they end, and the tableau at the end.
///
/// The first phase runs until the kernel stops. The problem is infeasible
/// unless the objective of the first phase is then closer to zero than the
/// tolerance and no artificial variable is basic above the tolerance. Otherwise the
/// costs are replaced and the second phase runs, with no artificial variable
/// entering.
pub open spec fn two_phase_run(t: TableauModel, costs: Seq<Ratio>, fuel: nat) -> (
    PhaseEnd,
    TableauModel,
) {
    let (end1, t1, left) = run(t, true, false, fuel);
    match end1 {
        RunEnd::Overflow => (PhaseEnd::Overflow, t1),
        RunEnd::IterationLimit => (PhaseEnd::IterationLimit, t1),
        _ => match phase_one_objective(t1) {
            None => (PhaseEnd::Overflow, t1),
            Some(z) => if !z.absolute().lt(epsilon()) || artificial_left(t1.rows, t1.vars) {
                (PhaseEnd::Infeasible, t1)
            } else {
                let t2 = TableauModel { vars: with_costs(t1.vars, costs), ..t1 };
                let (end2, t3, _) = run(t2, false, true, left);
                (
                    match end2 {
                        RunEnd::Optimal => PhaseEnd::Optimal,
                        RunEnd::Unbounded => PhaseEnd::Unbounded,
                        RunEnd::Overflow => PhaseEnd::Overflow,
                        RunEnd::IterationLimit => PhaseEnd::IterationLimit,
                    },
                    t3,
                )
            },
        },
    }
}

/// Replacing the costs keeps a tableau in order.
pub proof fn lemma_with_costs_wf(t: TableauModel, costs: Seq<Ratio>)
    requires
        t.wf(),
    ensures
        (TableauModel { vars: with_costs(t.vars, costs), ..t }).wf(),
{
    let vars = with_costs(t.vars, costs);
    assert forall|i: int| 0 <= i < t.basis.len() implies basic_in(vars, #[trigger] t.basis[i], i) by {
        assert(basic_in(t.vars, t.basis[i], i));
    }
    assert forall|j: int| 0 <= j < vars.len() && (#[trigger] vars[j]).in_base implies 0
        <= vars[j].row < t.basis.len() && t.basis[vars[j].row] == j by {
        assert(t.vars[j].in_base);
    }
    assert forall|j: int| 0 <= j < vars.len() implies (#[trigger] vars[j]).column == j + 1 by {
        assert(t.vars[j].column == j + 1);
    }
}

/// Computes the objective of the first phase.
pub fn get_objective(matrix: &Vec<Vec<Rational>>, variables: &Vec<Variable>, basis: &Vec<usize>) -> (z:
    Option<Rational>)
    requires
        model(matrix@, variables@, basis@).wf(),
    ensures
        match z {
            Some(v) => Some(v@) == phase_one_objective(model(matrix@, variables@, basis@)),
            None => phase_one_objective(model(matrix@, variables@, basis@)) is None,
        },
{
    scalar_product_column(matrix, variables, basis, 0)
}

/// Whether some artificial variable is basic with a right-hand side above the
/// tolerance.
pub fn artificial_remains(matrix: &Vec<Vec<Rational>>, variables: &Vec<Variable>) -> (b: bool)
    requires
        problem_wf(matrix_view(matrix@), vars_view(variables@)),
    ensures
        b == artificial_left(matrix_view(matrix@), vars_view(variables@)),
{
    let ghost rows = matrix_view(matrix@);
    let ghost vars = vars_view(variables@);
    let mut j: usize = 0;
    while j < variables.len()
        invariant
            j <= variables.len(),
            rows == matrix_view(matrix@),
            vars == vars_view(variables@),
            problem_wf(rows, vars),
            forall|k: int| 0 <= k < j ==> !artificial_at(rows, vars, k),
        decreases variables.len() - j,
    {
        let v = variables[j];
        assert(vars[j as int] == v@);
        if v.in_base && v.is_artificial {
            assert(rows[v.row as int].len() == variables.len() + 1);
            if tolerance().lt(matrix[v.row][0]) {
                assert(artificial_at(rows, vars, j as int));
                return true;
            }
        }
        j += 1;
    }
    false
}

/// Replaces the cost of each variable by the cost at the same place in
/// `costs`.
pub fn set_costs(variables: &mut Vec<Variable>, costs: &Vec<Rational>)
    requires
        costs.len() == old(variables).len(),
    ensures
        vars_view(final(variables)@) == with_costs(vars_view(old(variables)@), row_view(costs@)),
        final(variables).len() == old(variables).len(),
{
    let ghost before = vars_view(variables@);
    let mut j: usize = 0;
    while j < variables.len()
        invariant
            j <= variables.len(),
            costs.len() == variables.len(),
            variables.len() == before.len(),
            forall|k: int|
                0 <= k < j ==> (#[trigger] variables[k])@ == (VarModel {
                    cost: costs[k]@,
                    ..before[k]
                }),
            forall|k: int| j <= k < variables.len() ==> (#[trigger] variables[k])@ == before[k],
        decreases variables.len() - j,
    {
        let mut v = variables[j];
        v.cost = costs[j];
        variables.set(j, v);
        j += 1;
    }
    assert(vars_view(variables@) =~= with_costs(before, row_view(costs@)));
}

/// Runs the two phases from the problem's first basis, for at most
/// `max_iterations` iterations of the kernel over both. The variables hold the
/// costs of the first phase; `costs` holds those of the second, by variable.
pub fn two_phases(
    matrix: &mut Vec<Vec<Rational>>,
    variables: &mut Vec<Variable>,
    costs: &Vec<Rational>,
    max_iterations: usize,
) -> (r: (PhaseEnd, Vec<usize>))
    requires
        problem_wf(matrix_view(old(matrix)@), vars_view(old(variables)@)),
        costs.len() == old(variables).len(),
    ensures
        (r.0, model(final(matrix)@, final(variables)@, r.1@)) == two_phase_run(
            start_of(matrix_view(old(matrix)@), vars_view(old(variables)@)),
            row_view(costs@),
            max_iterations as nat,
        ),
        model(final(matrix)@, final(variables)@, r.1@).wf(),
        final(matrix).len() == old(matrix).len(),
        final(variables).len() == old(variables).len(),
{
    let mut basis = find_basis(variables, matrix.len());
    let (end1, left) = run_phase(matrix, variables, &mut basis, true, false, max_iterations);
    match end1 {
        RunEnd::Overflow => {
            return (PhaseEnd::Overflow, basis);
        },
        RunEnd::IterationLimit => {
            return (PhaseEnd::IterationLimit, basis);
        },
        _ => {},
    }
    let ghost t1 = model(matrix@, variables@, basis@);
    proof {
        lemma_tableau_problem_wf(t1);
    }
    match get_objective(matrix, variables, &basis) {
        None => (PhaseEnd::Overflow, basis),
        Some(z) => {
            if !z.abs().lt(tolerance()) || artificial_remains(matrix, variables) {
                return (PhaseEnd::Infeasible, basis);
            }
            set_costs(variables, costs);
            proof {
                lemma_with_costs_wf(t1, row_view(costs@));
            }
            let (end2, _) = run_phase(matrix, variables, &mut basis, false, true, left);
            let end = match end2 {
                RunEnd::Optimal => PhaseEnd::Optimal,
                RunEnd::Unbounded => PhaseEnd::Unbounded,
                RunEnd::Overflow => PhaseEnd::Overflow,
                RunEnd::IterationLimit => PhaseEnd::IterationLimit,
            };
            (end, basis)
        },
    }
}

/// What the two-phase driver returns for a problem whose variables hold the
/// costs of the first phase, with the costs of the second phase in `costs` and
/// at most `fuel` iterations of the kernel.
pub open spec fn solve_two_phase(
    rows: Seq<Seq<Ratio>>,
    vars: Seq<VarModel>,
    names: Seq<Seq<u8>>,
    costs: Seq<Ratio>,
    sense: Sense,
    fuel: nat,
) -> Result<SolutionModel, LpError> {
    let (end, t) = two_phase_run(start_of(rows, vars), costs, fuel);
    match end {
        PhaseEnd::Unbounded => Err(LpError::Unbounded),
        PhaseEnd::Infeasible => Err(LpError::Infeasible),
        PhaseEnd::Overflow => Err(LpError::Overflow),
        PhaseEnd::IterationLimit => Err(LpError::IterationLimit),
        PhaseEnd::Optimal => conclude(rows, t, names, sense),
    }
}

/// Solves a problem in two phases: finds a feasible basis, then the optimum,
/// checks the point found against every row of the problem as given, and reads
/// the solution off the basis.
///
/// Where a solution is returned, its point satisfies every row as given to
/// within the tolerance, and its objective is the value of the returned
/// assignment under the costs as given.
pub fn solve_system_two_phases(
    matrix: &mut Vec<Vec<Rational>>,
    variables: &mut Vec<Variable>,
    names: &Vec<Vec<u8>>,
    costs: &Vec<Rational>,
    sense: Sense,
    max_iterations: usize,
) -> (r: Result<(Vec<(Vec<u8>, Rational)>, Rational), LpError>)
    requires
        problem_wf(matrix_view(old(matrix)@), vars_view(old(variables)@)),
        names.len() == old(variables).len(),
        costs.len() == old(variables).len(),
    ensures
        result_view(r) == solve_two_phase(
            matrix_view(old(matrix)@),
            vars_view(old(variables)@),
            names_view(names@),
            row_view(costs@),
            sense,
            max_iterations as nat,
        ),
        r is Ok ==> satisfies_all(
            matrix_view(old(matrix)@),
            point(matrix_view(final(matrix)@), vars_view(final(variables)@)),
        ),
        r is Ok ==> Some(r->Ok_0.1@) == evaluation(
            structural_costs(vars_view(final(variables)@), sense),
            entry_values(r->Ok_0.0@),
        ),
{
    let given = copy_matrix(matrix);
    let (end, basis) = two_phases(matrix, variables, costs, max_iterations);
    match end {
        PhaseEnd::Unbounded => Err(LpError::Unbounded),
        PhaseEnd::Infeasible => Err(LpError::Infeasible),
        PhaseEnd::Overflow => Err(LpError::Overflow),
        PhaseEnd::IterationLimit => Err(LpError::IterationLimit),
        PhaseEnd::Optimal => {
            let r = finish(&given, matrix, variables, &basis, names, sense);
            proof {
                if r is Ok {
                    lemma_conclude_satisfies(
                        matrix_view(given@),
                        model(matrix@, variables@, basis@),
                        names_view(names@),
                        sense,
                    );
                }
            }
            r
        },
    }
}

/// A solution of the penalty driver satisfies the problem and is worth its
/// objective: the point of the last basis gives every row as given its
/// right-hand side to within the tolerance, the values returned are those of
/// the structural variables at that point, and the objective is the value of
/// these under the costs as given.
pub proof fn lemma_penalty_solution(
    rows: Seq<Seq<Ratio>>,
    vars: Seq<VarModel>,
    names: Seq<Seq<u8>>,
    sense: Sense,
    fuel: nat,
)
    requires
        solve_penalty(rows, vars, names, sense, fuel) is Ok,
    ensures
        ({
            let t = run(start_of(rows, vars), false, false, fuel).1;
            let s = solve_penalty(rows, vars, names, sense, fuel)->Ok_0;
            &&& satisfies_all(rows, point(t.rows, t.vars))
            &&& s.values == structural_values(t.rows, t.vars)
            &&& s.names == structural_names(names, t.vars)
            &&& Some(s.objective) == evaluation(structural_costs(t.vars, sense), s.values)
        }),
{
    let t = run(start_of(rows, vars), false, false, fuel).1;
    lemma_conclude_satisfies(rows, t, names, sense);
}

/// A solution of the two-phase driver satisfies the problem and is worth its
/// objective, as one of the penalty driver does.
pub proof fn lemma_two_phase_solution(
    rows: Seq<Seq<Ratio>>,
    vars: Seq<VarModel>,
    names: Seq<Seq<u8>>,
    costs: Seq<Ratio>,
    sense: Sense,
    fuel: nat,
)
    requires
        solve_two_phase(rows, vars, names, costs, sense, fuel) is Ok,
    ensures
        ({
            let t = two_phase_run(start_of(rows, vars), costs, fuel).1;
            let s = solve_two_phase(rows, vars, names, costs, sense, fuel)->Ok_0;
            &&& satisfies_all(rows, point(t.rows, t.vars))
            &&& s.values == structural_values(t.rows, t.vars)
            &&& s.names == structural_names(names, t.vars)
            &&& Some(s.objective) == evaluation(structural_costs(t.vars, sense), s.values)
        }),
{
    let t = two_phase_run(start_of(rows, vars), costs, fuel).1;
    lemma_conclude_satisfies(rows, t, names, sense);
}

} // verus!
