//! The problem loader: from the statements of a problem to its first tableau.
//!
//! Variables get their columns in the order in which their names first occur,
//! the objective first. Each constraint becomes a row and brings its own
//! auxiliary variables after its terms: `<=` a slack that is basic in the row,
//! `>=` a slack with coefficient -1 and an artificial variable that is basic,
//! `=` an artificial variable that is basic. Slacks are named `s0`, `s1`, ...
//! and artificial variables `a0`, `a1`, ... in the order of the constraints.
//! Costs are stored for a maximisation: those of a minimisation are negated.
//! A name stands for the first variable that bears it, auxiliary variables
//! included, and terms of one name add up.

use crate::driver::{copy_name, names_view, problem_wf};
use crate::error::{ParseError, ParseErrorKind};
use crate::pivot::copy_row;
use crate::rational::{lemma_ratio_of_int, Ratio, Rational};
use crate::tableau::{
    basic_in, has_basic, matrix_view, row_view, vars_view, vars_wf, Sense, VarModel, Variable,
};
use crate::text::{
    fail, program_of, Constraint, ConstraintModel, LPParser, Program, ProgramModel, Relation, Term,
    TermModel,
};
use vstd::prelude::*;
use vstd::string::StringSliceAdditionalSpecFns;

verus! {

/// The loader's state: the rows built so far, each as wide as it had to be
/// when it was built, the variables with their names and their costs of the
/// second phase, and the numbers of slacks and artificial variables made.
pub struct LoadModel {
    pub rows: Seq<Seq<Ratio>>,
    pub vars: Seq<VarModel>,
    pub names: Seq<Seq<u8>>,
    pub costs: Seq<Ratio>,
    pub slacks: nat,
    pub artificials: nat,
}

/// The first index from `k` on at which `names` holds `name`.
pub open spec fn place(names: Seq<Seq<u8>>, name: Seq<u8>, k: int) -> Option<int>
    decreases names.len() - k,
{
    if k < 0 || k >= names.len() {
        None
    } else if names[k] == name {
        Some(k)
    } else {
        place(names, name, k + 1)
    }
}

/// The decimal digits of `k`.
pub open spec fn digits(k: nat) -> Seq<u8>
    decreases k,
{
    if k < 10 {
        seq![(48 + k) as u8]
    } else {
        digits(k / 10).push((48 + k % 10) as u8)
    }
}

/// The name of the auxiliary variable with the given letter and number.
pub open spec fn auxiliary_name(letter: u8, k: nat) -> Seq<u8> {
    seq![letter] + digits(k)
}

/// The penalty that an artificial variable costs in penalty mode.
pub open spec fn penalty() -> Ratio {
    Ratio::of_int(-1_000_000_000_000)
}

/// The cost of an artificial variable while the first basis is sought.
pub open spec fn artificial_cost(two_phase: bool) -> Ratio {
    if two_phase {
        Ratio::of_int(-1)
    } else {
        penalty()
    }
}

/// `row` with zeros added up to the width `w`.
pub open spec fn widen(row: Seq<Ratio>, w: int) -> Seq<Ratio> {
    if row.len() >= w {
        row
    } else {
        Seq::new(
            w as nat,
            |c: int|
                if c < row.len() {
                    row[c]
                } else {
                    Ratio::zero()
                },
        )
    }
}

/// A variable that is not basic, in column `n + 1`.
pub open spec fn free_var(n: int, cost: Ratio, is_slack: bool) -> VarModel {
    VarModel {
        in_base: false,
        cost,
        row: usize::MAX as int,
        column: n + 1,
        is_slack,
        is_artificial: false,
    }
}

/// A variable that is basic in row `i`, in column `n + 1`.
pub open spec fn basic_var(n: int, cost: Ratio, i: int, is_artificial: bool) -> VarModel {
    VarModel { in_base: true, cost, row: i, column: n + 1, is_slack: !is_artificial, is_artificial }
}

impl LoadModel {
    /// The state before anything is loaded.
    pub open spec fn empty() -> LoadModel {
        LoadModel {
            rows: Seq::empty(),
            vars: Seq::empty(),
            names: Seq::empty(),
            costs: Seq::empty(),
            slacks: 0,
            artificials: 0,
        }
    }

    /// No further variable can be numbered.
    pub open spec fn full(self) -> bool {
        self.vars.len() + 1 >= usize::MAX
    }

    /// The state with one more variable.
    pub open spec fn with_variable(self, name: Seq<u8>, v: VarModel, cost: Ratio) -> LoadModel {
        LoadModel {
            vars: self.vars.push(v),
            names: self.names.push(name),
            costs: self.costs.push(cost),
            ..self
        }
    }

    /// The state after a term of the objective: a new name brings a new
    /// variable with the term's cost, a known one adds the cost to its
    /// variable's.
    pub open spec fn objective_term(self, t: TermModel, sense: Sense, two_phase: bool) -> Result<
        LoadModel,
        ParseError,
    > {
        let c = match sense {
            Sense::Maximize => t.coeff,
            Sense::Minimize => t.coeff.negated(),
        };
        match place(self.names, t.name, 0) {
            None => if self.full() {
                Err(fail(ParseErrorKind::Range, t.at as int))
            } else {
                let n = self.vars.len() as int;
                let active = if two_phase {
                    Ratio::zero()
                } else {
                    c
                };
                Ok(self.with_variable(t.name, free_var(n, active, false), c))
            },
            Some(j) => {
                let sum = self.costs[j].plus(c);
                if !sum.fits() {
                    Err(fail(ParseErrorKind::Range, t.at as int))
                } else {
                    Ok(
                        LoadModel {
                            costs: self.costs.update(j, sum),
                            vars: if two_phase {
                                self.vars
                            } else {
                                self.vars.update(j, VarModel { cost: sum, ..self.vars[j] })
                            },
                            ..self
                        },
                    )
                }
            },
        }
    }

    /// The state after the first `k` terms of the objective.
    pub open spec fn objective_terms(
        self,
        terms: Seq<TermModel>,
        sense: Sense,
        two_phase: bool,
        k: nat,
    ) -> Result<LoadModel, ParseError>
        decreases k,
    {
        if k == 0 {
            Ok(self)
        } else {
            match self.objective_terms(terms, sense, two_phase, (k - 1) as nat) {
                Err(e) => Err(e),
                Ok(st) => st.objective_term(terms[k - 1], sense, two_phase),
            }
        }
    }

    /// The state and the row after a term of a constraint: a new name brings a
    /// new variable of cost zero, and the term's coefficient is added to the
    /// row's entry in the variable's column.
    pub open spec fn constraint_term(self, row: Seq<Ratio>, t: TermModel) -> Result<
        (LoadModel, Seq<Ratio>),
        ParseError,
    > {
        match place(self.names, t.name, 0) {
            None => if self.full() {
                Err(fail(ParseErrorKind::Range, t.at as int))
            } else {
                let n = self.vars.len() as int;
                self.with_variable(t.name, free_var(n, Ratio::zero(), false), Ratio::zero()).bump(
                    row,
                    n + 1,
                    t,
                )
            },
            Some(j) => self.bump(row, j + 1, t),
        }
    }

    /// The row with the term's coefficient added in column `col`.
    pub open spec fn bump(self, row: Seq<Ratio>, col: int, t: TermModel) -> Result<
        (LoadModel, Seq<Ratio>),
        ParseError,
    > {
        let wide = widen(row, col + 1);
        let sum = wide[col].plus(t.coeff);
        if sum.fits() {
            Ok((self, wide.update(col, sum)))
        } else {
            Err(fail(ParseErrorKind::Range, t.at as int))
        }
    }

    /// The state and the row after the first `k` terms of a constraint.
    pub open spec fn constraint_terms(self, row: Seq<Ratio>, terms: Seq<TermModel>, k: nat) -> Result<
        (LoadModel, Seq<Ratio>),
        ParseError,
    >
        decreases k,
    {
        if k == 0 {
            Ok((self, row))
        } else {
            match self.constraint_terms(row, terms, (k - 1) as nat) {
                Err(e) => Err(e),
                Ok((st, r)) => st.constraint_term(r, terms[k - 1]),
            }
        }
    }

    /// The state with a slack for the row being built, and the row with the
    /// slack's entry: `1` and basic for `<=`, `-1` and not basic for `>=`.
    pub open spec fn with_slack(self, row: Seq<Ratio>, basic: bool) -> (LoadModel, Seq<Ratio>) {
        let n = self.vars.len() as int;
        let i = self.rows.len() as int;
        let v = if basic {
            basic_var(n, Ratio::zero(), i, false)
        } else {
            free_var(n, Ratio::zero(), true)
        };
        let entry = if basic {
            Ratio::of_int(1)
        } else {
            Ratio::of_int(-1)
        };
        (
            LoadModel {
                slacks: self.slacks + 1,
                ..self.with_variable(auxiliary_name(115, self.slacks), v, Ratio::zero())
            },
            widen(row, n + 2).update(n + 1, entry),
        )
    }

    /// The state with an artificial variable that is basic in the row being
    /// built, and the row with its entry `1`.
    pub open spec fn with_artificial(self, row: Seq<Ratio>, two_phase: bool) -> (
        LoadModel,
        Seq<Ratio>,
    ) {
        let n = self.vars.len() as int;
        let i = self.rows.len() as int;
        (
            LoadModel {
                artificials: self.artificials + 1,
                ..self.with_variable(
                    auxiliary_name(97, self.artificials),
                    basic_var(n, artificial_cost(two_phase), i, true),
                    Ratio::zero(),
                )
            },
            widen(row, n + 2).update(n + 1, Ratio::of_int(1)),
        )
    }

    /// The state after a constraint: its terms, its auxiliary variables, and
    /// its row with the right-hand side in front.
    pub open spec fn constraint(self, c: ConstraintModel, two_phase: bool) -> Result<
        LoadModel,
        ParseError,
    > {
        match self.constraint_terms(seq![Ratio::zero()], c.terms, c.terms.len()) {
            Err(e) => Err(e),
            Ok((st, row)) => if st.vars.len() + 2 >= usize::MAX {
                Err(fail(ParseErrorKind::Range, c.at as int))
            } else {
                let (st2, row2) = match c.relation {
                    Relation::Le => st.with_slack(row, true),
                    Relation::Ge => {
                        let (a, r) = st.with_slack(row, false);
                        a.with_artificial(r, two_phase)
                    },
                    Relation::Eq => st.with_artificial(row, two_phase),
                };
                Ok(LoadModel { rows: st2.rows.push(row2.update(0, c.rhs)), ..st2 })
            },
        }
    }

    /// The state after the first `k` constraints.
    pub open spec fn constraints(self, cs: Seq<ConstraintModel>, two_phase: bool, k: nat) -> Result<
        LoadModel,
        ParseError,
    >
        decreases k,
    {
        if k == 0 {
            Ok(self)
        } else {
            match self.constraints(cs, two_phase, (k - 1) as nat) {
                Err(e) => Err(e),
                Ok(st) => st.constraint(cs[k - 1], two_phase),
            }
        }
    }

    /// The rows, each widened to one entry for the right-hand side and one for
    /// each variable.
    pub open spec fn matrix(self) -> Seq<Seq<Ratio>> {
        Seq::new(self.rows.len(), |i: int| widen(self.rows[i], self.vars.len() as int + 1))
    }
}

/// A loaded problem: the matrix, the variables, their names, their costs of
/// the second phase, and the sense.
pub struct LoadedModel {
    pub rows: Seq<Seq<Ratio>>,
    pub vars: Seq<VarModel>,
    pub names: Seq<Seq<u8>>,
    pub costs: Seq<Ratio>,
    pub sense: Sense,
}

/// The first tableau of a problem, for penalty mode or for two phases.
pub open spec fn load(p: ProgramModel, two_phase: bool) -> Result<LoadedModel, ParseError> {
    match LoadModel::empty().objective_terms(p.objective, p.sense, two_phase, p.objective.len()) {
        Err(e) => Err(e),
        Ok(st) => match st.constraints(p.constraints, two_phase, p.constraints.len()) {
            Err(e) => Err(e),
            Ok(end) => Ok(
                LoadedModel {
                    rows: end.matrix(),
                    vars: end.vars,
                    names: end.names,
                    costs: end.costs,
                    sense: p.sense,
                },
            ),
        },
    }
}

/// What holds of the loader's state between statements: names, variables and
/// costs go together, the variables are numbered by their columns, each row
/// built has exactly one basic variable, and no row is wider than the
/// variables allow.
pub open spec fn load_wf(st: LoadModel) -> bool {
    &&& st.names.len() == st.vars.len()
    &&& st.vars.len() < usize::MAX
    &&& st.costs.len() == st.vars.len()
    &&& st.slacks <= st.vars.len()
    &&& st.artificials <= st.vars.len()
    &&& vars_wf(st.vars, st.rows.len() as int)
    &&& forall|i: int|
        0 <= i < st.rows.len() ==> 1 <= (#[trigger] st.rows[i]).len() <= st.vars.len() + 1
}

/// Whether two names are the same.
pub fn bytes_equal(a: &Vec<u8>, b: &Vec<u8>) -> (r: bool)
    ensures
        r == (a@ == b@),
{
    if a.len() != b.len() {
        return false;
    }
    let mut k: usize = 0;
    while k < a.len()
        invariant
            k <= a.len(),
            a.len() == b.len(),
            forall|j: int| 0 <= j < k ==> a[j] == b[j],
        decreases a.len() - k,
    {
        if a[k] != b[k] {
            return false;
        }
        k += 1;
    }
    assert(a@ =~= b@);
    true
}

/// Finds the first variable of the given name.
pub fn find_name(names: &Vec<Vec<u8>>, name: &Vec<u8>) -> (r: Option<usize>)
    ensures
        match r {
            Some(j) => place(names_view(names@), name@, 0) == Some(j as int) && j < names.len(),
            None => place(names_view(names@), name@, 0) is None,
        },
{
    let ghost nv = names_view(names@);
    let mut k: usize = 0;
    while k < names.len()
        invariant
            k <= names.len(),
            nv == names_view(names@),
            place(nv, name@, 0) == place(nv, name@, k as int),
        decreases names.len() - k,
    {
        assert(nv[k as int] == names[k as int]@);
        if bytes_equal(&names[k], name) {
            return Some(k);
        }
        k += 1;
    }
    None
}

/// Appends the decimal digits of `k`.
pub fn push_digits(out: &mut Vec<u8>, k: u64)
    ensures
        final(out)@ == old(out)@ + digits(k as nat),
    decreases k,
{
    if k >= 10 {
        push_digits(out, k / 10);
    }
    let d: u8 = (k % 10) as u8;
    out.push(48 + d);
    assert(out@ =~= old(out)@ + digits(k as nat));
}

/// Makes the name of the auxiliary variable with the given letter and number.
pub fn make_auxiliary_name(letter: u8, k: u64) -> (r: Vec<u8>)
    ensures
        r@ == auxiliary_name(letter, k as nat),
{
    let mut out: Vec<u8> = Vec::new();
    out.push(letter);
    push_digits(&mut out, k);
    assert(out@ =~= auxiliary_name(letter, k as nat));
    out
}

/// Adds zeros to the row up to the width `w`.
pub fn widen_row(row: &mut Vec<Rational>, w: usize)
    ensures
        row_view(final(row)@) == widen(row_view(old(row)@), w as int),
        final(row).len() >= w,
        final(row).len() >= old(row).len(),
        final(row).len() == w || final(row).len() == old(row).len(),
{
    let ghost before = row_view(row@);
    while row.len() < w
        invariant
            row.len() >= before.len(),
            row.len() <= w || row.len() == before.len(),
            forall|c: int| 0 <= c < before.len() ==> (#[trigger] row[c])@ == before[c],
            forall|c: int| before.len() <= c < row.len() ==> (#[trigger] row[c])@ == Ratio::zero(),
        decreases w - row.len(),
    {
        row.push(Rational::zero());
    }
    assert(row_view(row@) =~= widen(before, w as int));
}

/// The penalty as a number, or the cost -1 of the first phase.
pub fn make_artificial_cost(two_phase: bool) -> (r: Rational)
    ensures
        r@ == artificial_cost(two_phase),
{
    if two_phase {
        Rational::one().neg()
    } else {
        let r = Rational::new(-1_000_000_000_000, 1);
        proof {
            lemma_ratio_of_int(-1_000_000_000_000);
        }
        r.unwrap()
    }
}

/// Adding a variable that is not basic keeps the state in order.
pub proof fn lemma_free_variable_wf(st: LoadModel, name: Seq<u8>, v: VarModel, cost: Ratio)
    requires
        load_wf(st),
        !v.in_base,
        v.column == st.vars.len() + 1,
        !st.full(),
    ensures
        load_wf(st.with_variable(name, v, cost)),
{
    let after = st.with_variable(name, v, cost);
    assert forall|i: int| 0 <= i < after.rows.len() implies #[trigger] has_basic(after.vars, i) by {
        assert(has_basic(st.vars, i));
        let j = choose|j: int| basic_in(st.vars, j, i);
        assert(basic_in(after.vars, j, i));
    }
    assert forall|i: int| 0 <= i < after.rows.len() implies 1 <= (#[trigger] after.rows[i]).len()
        <= after.vars.len() + 1 by {
        assert(1 <= st.rows[i].len() <= st.vars.len() + 1);
    }
}

/// Replacing a variable's cost keeps the state in order.
pub proof fn lemma_cost_update_wf(st: LoadModel, j: int, sum: Ratio, two_phase: bool)
    requires
        load_wf(st),
        0 <= j < st.vars.len(),
    ensures
        load_wf(
            LoadModel {
                costs: st.costs.update(j, sum),
                vars: if two_phase {
                    st.vars
                } else {
                    st.vars.update(j, VarModel { cost: sum, ..st.vars[j] })
                },
                ..st
            },
        ),
{
    let vars = if two_phase {
        st.vars
    } else {
        st.vars.update(j, VarModel { cost: sum, ..st.vars[j] })
    };
    assert forall|i: int| 0 <= i < st.rows.len() implies #[trigger] has_basic(vars, i) by {
        assert(has_basic(st.vars, i));
        let w = choose|w: int| basic_in(st.vars, w, i);
        assert(basic_in(vars, w, i));
    }
    assert forall|a: int, b: int|
        0 <= a < vars.len() && 0 <= b < vars.len() && (#[trigger] vars[a]).in_base && (
        #[trigger] vars[b]).in_base && vars[a].row == vars[b].row implies a == b by {
        assert(st.vars[a].in_base && st.vars[b].in_base);
    }
    assert forall|a: int| 0 <= a < vars.len() implies (#[trigger] vars[a]).column == a + 1 by {
        assert(st.vars[a].column == a + 1);
    }
    assert forall|a: int| 0 <= a < vars.len() && (#[trigger] vars[a]).in_base implies 0
        <= vars[a].row < st.rows.len() by {
        assert(st.vars[a].in_base);
    }
}

/// An error among the terms of a constraint is the error of all its terms.
pub proof fn lemma_constraint_terms_err(
    st: LoadModel,
    row: Seq<Ratio>,
    terms: Seq<TermModel>,
    k: nat,
    n: nat,
)
    requires
        k <= n,
        st.constraint_terms(row, terms, k) is Err,
    ensures
        st.constraint_terms(row, terms, n) == st.constraint_terms(row, terms, k),
    decreases n,
{
    if k < n {
        lemma_constraint_terms_err(st, row, terms, k, (n - 1) as nat);
    }
}

/// An error among the terms of the objective is the error of all its terms.
pub proof fn lemma_objective_terms_err(
    st: LoadModel,
    terms: Seq<TermModel>,
    sense: Sense,
    two_phase: bool,
    k: nat,
    n: nat,
)
    requires
        k <= n,
        st.objective_terms(terms, sense, two_phase, k) is Err,
    ensures
        st.objective_terms(terms, sense, two_phase, n) == st.objective_terms(
            terms,
            sense,
            two_phase,
            k,
        ),
    decreases n,
{
    if k < n {
        lemma_objective_terms_err(st, terms, sense, two_phase, k, (n - 1) as nat);
    }
}

/// An error among the constraints is the error of all of them.
pub proof fn lemma_constraints_err(
    st: LoadModel,
    cs: Seq<ConstraintModel>,
    two_phase: bool,
    k: nat,
    n: nat,
)
    requires
        k <= n,
        st.constraints(cs, two_phase, k) is Err,
    ensures
        st.constraints(cs, two_phase, n) == st.constraints(cs, two_phase, k),
    decreases n,
{
    if k < n {
        lemma_constraints_err(st, cs, two_phase, k, (n - 1) as nat);
    }
}

/// The loader at work: the rows built so far, the variables with their names
/// and their costs of the second phase, and the numbers of slacks and
/// artificial variables made.
pub struct Loader {
    pub rows: Vec<Vec<Rational>>,
    pub variables: Vec<Variable>,
    pub names: Vec<Vec<u8>>,
    pub costs: Vec<Rational>,
    pub slacks: usize,
    pub artificials: usize,
}

impl View for Loader {
    type V = LoadModel;

    open spec fn view(&self) -> LoadModel {
        LoadModel {
            rows: matrix_view(self.rows@),
            vars: vars_view(self.variables@),
            names: names_view(self.names@),
            costs: row_view(self.costs@),
            slacks: self.slacks as nat,
            artificials: self.artificials as nat,
        }
    }
}

impl Loader {
    /// A loader that has loaded nothing.
    pub fn new() -> (r: Loader)
        ensures
            r@ == LoadModel::empty(),
            load_wf(r@),
    {
        let r = Loader {
            rows: Vec::new(),
            variables: Vec::new(),
            names: Vec::new(),
            costs: Vec::new(),
            slacks: 0,
            artificials: 0,
        };
        assert(r@.rows =~= Seq::empty());
        assert(r@.vars =~= Seq::empty());
        assert(r@.names =~= Seq::empty());
        assert(r@.costs =~= Seq::empty());
        r
    }

    /// Adds a variable.
    pub fn push_variable(&mut self, name: Vec<u8>, v: Variable, cost: Rational)
        ensures
            final(self)@ == old(self)@.with_variable(name@, v@, cost@),
            final(self).variables.len() == old(self).variables.len() + 1,
            final(self).rows == old(self).rows,
    {
        let ghost before = self@;
        self.variables.push(v);
        self.names.push(name);
        self.costs.push(cost);
        assert(self@.vars =~= before.vars.push(v@));
        assert(self@.names =~= before.names.push(name@));
        assert(self@.costs =~= before.costs.push(cost@));
    }

    /// Takes in a term of the objective.
    pub fn add_objective_term(&mut self, t: &Term, sense: Sense, two_phase: bool) -> (r: Result<
        (),
        ParseError,
    >)
        requires
            load_wf(old(self)@),
        ensures
            match r {
                Ok(_) => old(self)@.objective_term(t@, sense, two_phase) == Ok::<
                    LoadModel,
                    ParseError,
                >(final(self)@) && load_wf(final(self)@),
                Err(e) => old(self)@.objective_term(t@, sense, two_phase) == Err::<
                    LoadModel,
                    ParseError,
                >(e),
            },
    {
        let ghost before = self@;
        let c = match sense {
            Sense::Maximize => t.coeff,
            Sense::Minimize => t.coeff.neg(),
        };
        match find_name(&self.names, &t.name) {
            None => {
                if self.variables.len() >= usize::MAX - 1 {
                    return Err(ParseError { position: t.at, kind: ParseErrorKind::Range });
                }
                let n = self.variables.len();
                let active = if two_phase {
                    Rational::zero()
                } else {
                    c
                };
                let v = Variable {
                    in_base: false,
                    cost: active,
                    row: usize::MAX,
                    column: n + 1,
                    is_slack: false,
                    is_artificial: false,
                };
                proof {
                    lemma_free_variable_wf(before, t.name@, v@, c@);
                }
                self.push_variable(copy_name(&t.name), v, c);
                Ok(())
            },
            Some(j) => {
                assert(before.costs[j as int] == self.costs[j as int]@);
                match self.costs[j].add(c) {
                    None => Err(ParseError { position: t.at, kind: ParseErrorKind::Range }),
                    Some(sum) => {
                        proof {
                            lemma_cost_update_wf(before, j as int, sum@, two_phase);
                        }
                        self.costs.set(j, sum);
                        if !two_phase {
                            let mut v = self.variables[j];
                            v.cost = sum;
                            self.variables.set(j, v);
                        }
                        assert(self@.costs =~= before.costs.update(j as int, sum@));
                        assert(self@.vars =~= if two_phase {
                            before.vars
                        } else {
                            before.vars.update(
                                j as int,
                                VarModel { cost: sum@, ..before.vars[j as int] },
                            )
                        });
                        Ok(())
                    },
                }
            },
        }
    }

    /// Adds the term's coefficient to the row's entry in column `col`.
    fn bump_row(&self, row: &mut Vec<Rational>, col: usize, t: &Term) -> (r: Result<(), ParseError>)
        requires
            1 <= old(row).len(),
            1 <= col <= self.variables.len(),
            self.variables.len() < usize::MAX,
        ensures
            match r {
                Ok(_) => self@.bump(row_view(old(row)@), col as int, t@) == Ok::<
                    (LoadModel, Seq<Ratio>),
                    ParseError,
                >((self@, row_view(final(row)@))) && final(row).len() >= old(row).len() && (
                final(row).len() == old(row).len() || final(row).len() == col + 1),
                Err(e) => self@.bump(row_view(old(row)@), col as int, t@) == Err::<
                    (LoadModel, Seq<Ratio>),
                    ParseError,
                >(e),
            },
    {
        let ghost before = row_view(row@);
        widen_row(row, col + 1);
        let ghost wide = row_view(row@);
        assert(wide[col as int] == row[col as int]@);
        match row[col].add(t.coeff) {
            None => Err(ParseError { position: t.at, kind: ParseErrorKind::Range }),
            Some(sum) => {
                row.set(col, sum);
                assert(row_view(row@) =~= wide.update(col as int, sum@));
                Ok(())
            },
        }
    }

    /// Takes in a term of the constraint whose row is being built.
    pub fn add_constraint_term(&mut self, row: &mut Vec<Rational>, t: &Term) -> (r: Result<
        (),
        ParseError,
    >)
        requires
            load_wf(old(self)@),
            1 <= old(row).len() <= old(self).variables.len() + 1,
        ensures
            match r {
                Ok(_) => old(self)@.constraint_term(row_view(old(row)@), t@) == Ok::<
                    (LoadModel, Seq<Ratio>),
                    ParseError,
                >((final(self)@, row_view(final(row)@))) && load_wf(final(self)@) && 1
                    <= final(row).len() <= final(self).variables.len() + 1 && final(self).rows
                    == old(self).rows,
                Err(e) => old(self)@.constraint_term(row_view(old(row)@), t@) == Err::<
                    (LoadModel, Seq<Ratio>),
                    ParseError,
                >(e),
            },
    {
        let ghost before = self@;
        match find_name(&self.names, &t.name) {
            None => {
                if self.variables.len() >= usize::MAX - 1 {
                    return Err(ParseError { position: t.at, kind: ParseErrorKind::Range });
                }
                let n = self.variables.len();
                let v = Variable {
                    in_base: false,
                    cost: Rational::zero(),
                    row: usize::MAX,
                    column: n + 1,
                    is_slack: false,
                    is_artificial: false,
                };
                proof {
                    lemma_free_variable_wf(before, t.name@, v@, Ratio::zero());
                }
                self.push_variable(copy_name(&t.name), v, Rational::zero());
                self.bump_row(row, n + 1, t)
            },
            Some(j) => self.bump_row(row, j + 1, t),
        }
    }

    /// Adds a slack for the row being built and sets its entry in the row.
    fn push_slack(&mut self, row: &mut Vec<Rational>, basic: bool)
        requires
            old(self).variables.len() + 1 < usize::MAX,
            old(self).slacks <= old(self).variables.len(),
            1 <= old(row).len() <= old(self).variables.len() + 1,
        ensures
            (final(self)@, row_view(final(row)@)) == old(self)@.with_slack(
                row_view(old(row)@),
                basic,
            ),
            final(self).variables.len() == old(self).variables.len() + 1,
            final(self).rows == old(self).rows,
            final(row).len() == final(self).variables.len() + 1,
    {
        let n = self.variables.len();
        let i = self.rows.len();
        let v = Variable {
            in_base: basic,
            cost: Rational::zero(),
            row: if basic {
                i
            } else {
                usize::MAX
            },
            column: n + 1,
            is_slack: true,
            is_artificial: false,
        };
        let entry = if basic {
            Rational::one()
        } else {
            Rational::one().neg()
        };
        let name = make_auxiliary_name(115, self.slacks as u64);
        self.push_variable(name, v, Rational::zero());
        self.slacks = self.slacks + 1;
        let ghost before = row_view(row@);
        widen_row(row, n + 2);
        row.set(n + 1, entry);
        assert(row_view(row@) =~= widen(before, n + 2).update(n + 1, entry@));
    }

    /// Adds an artificial variable that is basic in the row being built and
    /// sets its entry in the row.
    fn push_artificial(&mut self, row: &mut Vec<Rational>, two_phase: bool)
        requires
            old(self).variables.len() + 1 < usize::MAX,
            old(self).artificials <= old(self).variables.len(),
            1 <= old(row).len() <= old(self).variables.len() + 1,
        ensures
            (final(self)@, row_view(final(row)@)) == old(self)@.with_artificial(
                row_view(old(row)@),
                two_phase,
            ),
            final(self).variables.len() == old(self).variables.len() + 1,
            final(self).rows == old(self).rows,
            final(row).len() == final(self).variables.len() + 1,
    {
        let n = self.variables.len();
        let i = self.rows.len();
        let v = Variable {
            in_base: true,
            cost: make_artificial_cost(two_phase),
            row: i,
            column: n + 1,
            is_slack: false,
            is_artificial: true,
        };
        let name = make_auxiliary_name(97, self.artificials as u64);
        self.push_variable(name, v, Rational::zero());
        self.artificials = self.artificials + 1;
        let ghost before = row_view(row@);
        widen_row(row, n + 2);
        row.set(n + 1, Rational::one());
        assert(row_view(row@) =~= widen(before, n + 2).update(n + 1, Ratio::of_int(1)));
    }

    /// Takes in a constraint: its terms, its auxiliary variables, its row.
    pub fn add_constraint(&mut self, c: &Constraint, two_phase: bool) -> (r: Result<(), ParseError>)
        requires
            load_wf(old(self)@),
        ensures
            match r {
                Ok(_) => old(self)@.constraint(c@, two_phase) == Ok::<LoadModel, ParseError>(
                    final(self)@,
                ) && load_wf(final(self)@),
                Err(e) => old(self)@.constraint(c@, two_phase) == Err::<LoadModel, ParseError>(e),
            },
    {
        let ghost before = self@;
        let ghost terms = c@.terms;
        let mut row: Vec<Rational> = Vec::new();
        row.push(Rational::zero());
        assert(row_view(row@) =~= seq![Ratio::zero()]);
        let mut k: usize = 0;
        while k < c.terms.len()
            invariant
                k <= c.terms.len(),
                terms == c@.terms,
                terms.len() == c.terms.len(),
                load_wf(self@),
                1 <= row.len() <= self.variables.len() + 1,
                self.rows == old(self).rows,
                before == old(self)@,
                before.constraint_terms(seq![Ratio::zero()], terms, k as nat) == Ok::<
                    (LoadModel, Seq<Ratio>),
                    ParseError,
                >((self@, row_view(row@))),
            decreases c.terms.len() - k,
        {
            assert(terms[k as int] == c.terms[k as int]@);
            match self.add_constraint_term(&mut row, &c.terms[k]) {
                Err(e) => {
                    proof {
                        lemma_constraint_terms_err(
                            before,
                            seq![Ratio::zero()],
                            terms,
                            (k + 1) as nat,
                            terms.len(),
                        );
                    }
                    return Err(e);
                },
                Ok(_) => {},
            }
            k += 1;
        }
        if self.variables.len() >= usize::MAX - 2 {
            return Err(ParseError { position: c.at, kind: ParseErrorKind::Range });
        }
        let ghost st = self@;
        let ghost i = st.rows.len() as int;
        match c.relation {
            Relation::Le => {
                self.push_slack(&mut row, true);
            },
            Relation::Ge => {
                self.push_slack(&mut row, false);
                self.push_artificial(&mut row, two_phase);
            },
            Relation::Eq => {
                self.push_artificial(&mut row, two_phase);
            },
        }
        let ghost filled = row_view(row@);
        row.set(0, c.rhs);
        assert(row_view(row@) =~= filled.update(0, c.rhs@));
        let ghost done = row_view(row@);
        let ghost mid = self@;
        self.rows.push(row);
        assert(self@.rows =~= mid.rows.push(done));
        proof {
            let after = self@;
            let w = (after.vars.len() - 1) as int;
            assert(basic_in(after.vars, w, i));
            assert forall|r: int| 0 <= r < after.rows.len() implies #[trigger] has_basic(
                after.vars,
                r,
            ) by {
                if r < i {
                    assert(has_basic(st.vars, r));
                    let j = choose|j: int| basic_in(st.vars, j, r);
                    assert(after.vars[j] == st.vars[j]);
                    assert(basic_in(after.vars, j, r));
                }
            }
            assert forall|r: int| 0 <= r < after.rows.len() implies 1 <= (
            #[trigger] after.rows[r]).len() <= after.vars.len() + 1 by {
                if r < i {
                    assert(after.rows[r] == st.rows[r]);
                }
            }
            assert forall|a: int| 0 <= a < after.vars.len() implies (
            #[trigger] after.vars[a]).column == a + 1 by {
                if a < st.vars.len() {
                    assert(after.vars[a] == st.vars[a]);
                }
            }
            assert forall|a: int| 0 <= a < after.vars.len() && (
            #[trigger] after.vars[a]).in_base implies 0 <= after.vars[a].row
                < after.rows.len() by {
                if a < st.vars.len() {
                    assert(after.vars[a] == st.vars[a]);
                }
            }
            assert forall|a: int, b: int|
                0 <= a < after.vars.len() && 0 <= b < after.vars.len() && (
                #[trigger] after.vars[a]).in_base && (#[trigger] after.vars[b]).in_base
                    && after.vars[a].row == after.vars[b].row implies a == b by {
                if a < st.vars.len() {
                    assert(after.vars[a] == st.vars[a]);
                }
                if b < st.vars.len() {
                    assert(after.vars[b] == st.vars[b]);
                }
            }
        }
        Ok(())
    }

    /// Widens every row to the full width and hands the problem over.
    pub fn finish(self, sense: Sense) -> (r: Loaded)
        requires
            load_wf(self@),
        ensures
            r@ == (LoadedModel {
                rows: self@.matrix(),
                vars: self@.vars,
                names: self@.names,
                costs: self@.costs,
                sense,
            }),
            r.wf(),
    {
        let ghost st = self@;
        let width: usize = self.variables.len() + 1;
        let mut matrix: Vec<Vec<Rational>> = Vec::new();
        let mut i: usize = 0;
        while i < self.rows.len()
            invariant
                i <= self.rows.len(),
                matrix.len() == i,
                st == self@,
                load_wf(st),
                width == self.variables.len() + 1,
                forall|r: int|
                    0 <= r < i ==> row_view((#[trigger] matrix[r])@) == widen(
                        st.rows[r],
                        width as int,
                    ),
            decreases self.rows.len() - i,
        {
            let mut row = copy_row(&self.rows[i]);
            assert(st.rows[i as int] == row_view(row@));
            widen_row(&mut row, width);
            matrix.push(row);
            i += 1;
        }
        assert(matrix_view(matrix@) =~= st.matrix());
        let r = Loaded {
            matrix,
            variables: self.variables,
            names: self.names,
            costs: self.costs,
            sense,
        };
        proof {
            assert forall|k: int| 0 <= k < r@.rows.len() implies (#[trigger] r@.rows[k]).len()
                == r@.vars.len() + 1 by {
                assert(1 <= st.rows[k].len() <= st.vars.len() + 1);
            }
        }
        r
    }
}

/// A loaded problem: the matrix, the variables, their names, their costs of
/// the second phase, and the sense.
#[derive(Debug)]
pub struct Loaded {
    pub matrix: Vec<Vec<Rational>>,
    pub variables: Vec<Variable>,
    pub names: Vec<Vec<u8>>,
    pub costs: Vec<Rational>,
    pub sense: Sense,
}

impl View for Loaded {
    type V = LoadedModel;

    open spec fn view(&self) -> LoadedModel {
        LoadedModel {
            rows: matrix_view(self.matrix@),
            vars: vars_view(self.variables@),
            names: names_view(self.names@),
            costs: row_view(self.costs@),
            sense: self.sense,
        }
    }
}

impl Loaded {
    /// The problem has the shape that the drivers ask for, with a name and a
    /// cost for each variable.
    pub open spec fn wf(&self) -> bool {
        &&& problem_wf(self@.rows, self@.vars)
        &&& self.names.len() == self.variables.len()
        &&& self.costs.len() == self.variables.len()
    }
}

/// Loads the statements of a problem into its first tableau, for penalty mode
/// or for two phases.
pub fn load_program(p: &Program, two_phase: bool) -> (r: Result<Loaded, ParseError>)
    ensures
        match r {
            Ok(l) => load(p@, two_phase) == Ok::<LoadedModel, ParseError>(l@) && l.wf(),
            Err(e) => load(p@, two_phase) == Err::<LoadedModel, ParseError>(e),
        },
{
    let mut st = Loader::new();
    let ghost objective = p@.objective;
    let ghost constraints = p@.constraints;
    let mut k: usize = 0;
    while k < p.objective.len()
        invariant
            k <= p.objective.len(),
            objective == p@.objective,
            load_wf(st@),
            LoadModel::empty().objective_terms(objective, p.sense, two_phase, k as nat) == Ok::<
                LoadModel,
                ParseError,
            >(st@),
        decreases p.objective.len() - k,
    {
        assert(objective[k as int] == p.objective[k as int]@);
        match st.add_objective_term(&p.objective[k], p.sense, two_phase) {
            Err(e) => {
                proof {
                    lemma_objective_terms_err(
                        LoadModel::empty(),
                        objective,
                        p.sense,
                        two_phase,
                        (k + 1) as nat,
                        objective.len(),
                    );
                }
                return Err(e);
            },
            Ok(_) => {},
        }
        k += 1;
    }
    let ghost mid = st@;
    let mut i: usize = 0;
    while i < p.constraints.len()
        invariant
            i <= p.constraints.len(),
            constraints == p@.constraints,
            objective == p@.objective,
            load_wf(st@),
            LoadModel::empty().objective_terms(
                objective,
                p.sense,
                two_phase,
                objective.len(),
            ) == Ok::<LoadModel, ParseError>(mid),
            mid.constraints(constraints, two_phase, i as nat) == Ok::<LoadModel, ParseError>(st@),
        decreases p.constraints.len() - i,
    {
        assert(constraints[i as int] == p.constraints[i as int]@);
        match st.add_constraint(&p.constraints[i], two_phase) {
            Err(e) => {
                proof {
                    lemma_constraints_err(
                        mid,
                        constraints,
                        two_phase,
                        (i + 1) as nat,
                        constraints.len(),
                    );
                }
                return Err(e);
            },
            Ok(_) => {},
        }
        i += 1;
    }
    Ok(st.finish(p.sense))
}

/// The first tableau of the problem that a text states, or the first error in
/// the text.
pub open spec fn loaded(s: Seq<u8>, two_phase: bool) -> Result<LoadedModel, ParseError> {
    match program_of(s) {
        Err(e) => Err(e),
        Ok(p) => load(p, two_phase),
    }
}

/// Reads a problem text and loads it, for penalty mode or for two phases.
pub fn load_text(s: &[u8], two_phase: bool) -> (r: Result<Loaded, ParseError>)
    ensures
        match r {
            Ok(l) => loaded(s@, two_phase) == Ok::<LoadedModel, ParseError>(l@) && l.wf(),
            Err(e) => loaded(s@, two_phase) == Err::<LoadedModel, ParseError>(e),
        },
{
    match LPParser::parse(s) {
        Err(e) => Err(e),
        Ok(p) => load_program(&p, two_phase),
    }
}

/// Reads a problem text for penalty mode: the matrix, the variables, whose
/// costs hold the penalty for artificial variables, the sense, and the names
/// by variable.
pub fn parse_lp_bigm(text: &str) -> (r: Result<
    (Vec<Vec<Rational>>, Vec<Variable>, Sense, Vec<Vec<u8>>),
    ParseError,
>)
    ensures
        match r {
            Ok((matrix, variables, sense, names)) => {
                &&& loaded(text.spec_bytes(), false) is Ok
                &&& matrix_view(matrix@) == loaded(text.spec_bytes(), false)->Ok_0.rows
                &&& vars_view(variables@) == loaded(text.spec_bytes(), false)->Ok_0.vars
                &&& names_view(names@) == loaded(text.spec_bytes(), false)->Ok_0.names
                &&& sense == loaded(text.spec_bytes(), false)->Ok_0.sense
                &&& problem_wf(matrix_view(matrix@), vars_view(variables@))
                &&& names.len() == variables.len()
            },
            Err(e) => loaded(text.spec_bytes(), false) == Err::<LoadedModel, ParseError>(e),
        },
{
    match load_text(text.as_bytes(), false) {
        Err(e) => Err(e),
        Ok(l) => Ok((l.matrix, l.variables, l.sense, l.names)),
    }
}

/// Reads a problem text for two phases: the matrix, the variables, whose costs
/// are those of the first phase, the sense, the names by variable, and the
/// costs of the second phase by variable.
pub fn parse_lp_two_phases(text: &str) -> (r: Result<
    (Vec<Vec<Rational>>, Vec<Variable>, Sense, Vec<Vec<u8>>, Vec<Rational>),
    ParseError,
>)
    ensures
        match r {
            Ok((matrix, variables, sense, names, costs)) => {
                &&& loaded(text.spec_bytes(), true) is Ok
                &&& matrix_view(matrix@) == loaded(text.spec_bytes(), true)->Ok_0.rows
                &&& vars_view(variables@) == loaded(text.spec_bytes(), true)->Ok_0.vars
                &&& names_view(names@) == loaded(text.spec_bytes(), true)->Ok_0.names
                &&& row_view(costs@) == loaded(text.spec_bytes(), true)->Ok_0.costs
                &&& sense == loaded(text.spec_bytes(), true)->Ok_0.sense
                &&& problem_wf(matrix_view(matrix@), vars_view(variables@))
                &&& names.len() == variables.len()
                &&& costs.len() == variables.len()
            },
            Err(e) => loaded(text.spec_bytes(), true) == Err::<LoadedModel, ParseError>(e),
        },
{
    match load_text(text.as_bytes(), true) {
        Err(e) => Err(e),
        Ok(l) => Ok((l.matrix, l.variables, l.sense, l.names, l.costs)),
    }
}

} // verus!
