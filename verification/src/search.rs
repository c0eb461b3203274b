//! Branch and bound: the search for a solution in whole numbers.
//!
//! The search keeps a stack of nodes. A node is the problem text with bounds
//! added to it, one line each. A node is solved in penalty mode. Where its
//! solution is whole it competes with the best one found; otherwise its first
//! fractional variable gives two children, one bounded above by the floor of
//! its value and one bounded below by the ceiling.

use crate::driver::{
    copy_name, entry_names, entry_values, solve_penalty, solve_system, SolutionModel,
};
use crate::error::LpError;
use crate::loader::{bytes_equal, digits, load_text, loaded, push_digits};
use crate::rational::{Ratio, Rational};
use crate::tableau::Sense;
use crate::text::Relation;
use vstd::prelude::*;
use vstd::slice::slice_to_vec;
use vstd::string::StringSliceAdditionalSpecFns;

verus! {

/// A bound added to the problem: a variable's name, `<=` or `>=`, and a whole
/// number.
#[derive(Debug)]
pub struct Branch {
    pub name: Vec<u8>,
    pub relation: Relation,
    pub bound: i64,
}

/// The model of a [`Branch`].
pub struct BranchModel {
    pub name: Seq<u8>,
    pub relation: Relation,
    pub bound: int,
}

impl View for Branch {
    type V = BranchModel;

    open spec fn view(&self) -> BranchModel {
        BranchModel { name: self.name@, relation: self.relation, bound: self.bound as int }
    }
}

/// A node of the search: the bounds that it adds to the problem, in the order
/// in which they were added.
#[derive(Debug)]
pub struct Node {
    pub constraints: Vec<Branch>,
}

/// The model of a list of bounds.
pub open spec fn branches_view(b: Seq<Branch>) -> Seq<BranchModel> {
    Seq::new(b.len(), |k: int| b[k]@)
}

impl View for Node {
    type V = Seq<BranchModel>;

    open spec fn view(&self) -> Seq<BranchModel> {
        branches_view(self.constraints@)
    }
}

/// The model of a stack of nodes.
pub open spec fn stack_view(s: Seq<Node>) -> Seq<Seq<BranchModel>> {
    Seq::new(s.len(), |k: int| s[k]@)
}

/// A relation as written.
pub open spec fn relation_text(r: Relation) -> Seq<u8> {
    match r {
        Relation::Le => seq![60u8, 61u8],
        Relation::Ge => seq![62u8, 61u8],
        Relation::Eq => seq![61u8],
    }
}

/// A whole number as written: its decimal digits, after `-` where it is
/// negative.
pub open spec fn bound_text(b: int) -> Seq<u8> {
    if b < 0 {
        seq![45u8] + digits((-b) as nat)
    } else {
        digits(b as nat)
    }
}

/// A bound as a line of the problem text: a line end, the name, the relation
/// and the number, separated by spaces, and `;`.
pub open spec fn branch_text(b: BranchModel) -> Seq<u8> {
    seq![10u8] + b.name + seq![32u8] + relation_text(b.relation) + seq![32u8] + bound_text(b.bound)
        + seq![59u8]
}

/// The lines of the first `k` bounds of a node.
pub open spec fn branches_text(node: Seq<BranchModel>, k: nat) -> Seq<u8>
    decreases k,
{
    if k == 0 {
        Seq::empty()
    } else {
        branches_text(node, (k - 1) as nat) + branch_text(node[k - 1])
    }
}

/// The problem text of a node: the text as given and a line for each bound.
pub open spec fn node_text(base: Seq<u8>, node: Seq<BranchModel>) -> Seq<u8> {
    base + branches_text(node, node.len())
}

/// Appends bytes.
pub fn push_all(out: &mut Vec<u8>, bytes: &Vec<u8>)
    ensures
        final(out)@ == old(out)@ + bytes@,
{
    let mut k: usize = 0;
    while k < bytes.len()
        invariant
            k <= bytes.len(),
            out@ == old(out)@ + bytes@.subrange(0, k as int),
        decreases bytes.len() - k,
    {
        out.push(bytes[k]);
        assert(out@ =~= old(out)@ + bytes@.subrange(0, (k + 1) as int));
        k += 1;
    }
    assert(bytes@.subrange(0, bytes.len() as int) =~= bytes@);
}

/// Appends a bound as a line of the problem text.
pub fn push_branch(out: &mut Vec<u8>, b: &Branch)
    requires
        b.bound > i64::MIN,
    ensures
        final(out)@ == old(out)@ + branch_text(b@),
{
    out.push(10);
    push_all(out, &b.name);
    out.push(32);
    match b.relation {
        Relation::Le => {
            out.push(60);
            out.push(61);
        },
        Relation::Ge => {
            out.push(62);
            out.push(61);
        },
        Relation::Eq => {
            out.push(61);
        },
    }
    out.push(32);
    if b.bound < 0 {
        out.push(45);
        push_digits(out, (-b.bound) as u64);
    } else {
        push_digits(out, b.bound as u64);
    }
    out.push(59);
    assert(out@ =~= old(out)@ + branch_text(b@));
}

impl Node {
    /// The root of the search: the problem as given.
    pub fn root() -> (r: Node)
        ensures
            r@ == Seq::<BranchModel>::empty(),
            r.wf(),
    {
        let r = Node { constraints: Vec::new() };
        assert(r@ =~= Seq::<BranchModel>::empty());
        r
    }

    /// Every bound can be written: none is `i64::MIN`.
    pub open spec fn wf(&self) -> bool {
        forall|k: int|
            0 <= k < self.constraints.len() ==> (#[trigger] self.constraints[k]).bound > i64::MIN
    }

    /// Writes the node's problem text: `base` and a line for each bound.
    pub fn to_lp_string(&self, base: &[u8]) -> (r: Vec<u8>)
        requires
            self.wf(),
        ensures
            r@ == node_text(base@, self@),
    {
        let mut out = slice_to_vec(base);
        let mut k: usize = 0;
        while k < self.constraints.len()
            invariant
                k <= self.constraints.len(),
                self.wf(),
                out@ == base@ + branches_text(self@, k as nat),
            decreases self.constraints.len() - k,
        {
            let ghost before = out@;
            assert(self@[k as int] == self.constraints[k as int]@);
            push_branch(&mut out, &self.constraints[k]);
            assert(out@ =~= base@ + branches_text(self@, (k + 1) as nat));
            k += 1;
        }
        out
    }

    /// Whether the node already holds the given bound.
    pub fn contains_constraint(&self, name: &Vec<u8>, relation: Relation, bound: i64) -> (r: bool)
        ensures
            r == self@.contains(BranchModel { name: name@, relation, bound: bound as int }),
    {
        let ghost target = BranchModel { name: name@, relation, bound: bound as int };
        let mut k: usize = 0;
        while k < self.constraints.len()
            invariant
                k <= self.constraints.len(),
                target == (BranchModel { name: name@, relation, bound: bound as int }),
                forall|j: int| 0 <= j < k ==> self@[j] != target,
            decreases self.constraints.len() - k,
        {
            let b = &self.constraints[k];
            assert(self@[k as int] == b@);
            if bytes_equal(&b.name, name) && b.relation == relation && b.bound == bound {
                assert(self@[k as int] == target);
                return true;
            }
            k += 1;
        }
        false
    }

    /// The node with one more bound.
    pub fn with_constraint(&self, name: &Vec<u8>, relation: Relation, bound: i64) -> (r: Node)
        requires
            self.wf(),
            bound > i64::MIN,
        ensures
            r@ == self@.push(BranchModel { name: name@, relation, bound: bound as int }),
            r.wf(),
    {
        let mut constraints: Vec<Branch> = Vec::new();
        let mut k: usize = 0;
        while k < self.constraints.len()
            invariant
                k <= self.constraints.len(),
                constraints.len() == k,
                self.wf(),
                forall|j: int| 0 <= j < k ==> (#[trigger] constraints[j])@ == self@[j],
                forall|j: int| 0 <= j < k ==> (#[trigger] constraints[j]).bound > i64::MIN,
            decreases self.constraints.len() - k,
        {
            let b = &self.constraints[k];
            assert(self@[k as int] == b@);
            constraints.push(Branch { name: copy_name(&b.name), relation: b.relation, bound: b.bound });
            k += 1;
        }
        constraints.push(Branch { name: copy_name(name), relation, bound });
        let r = Node { constraints };
        assert(r@ =~= self@.push(BranchModel { name: name@, relation, bound: bound as int }));
        r
    }
}

/// What solving a node gives: a solution with the sense of the problem, or the
/// reason why there is none.
pub open spec fn node_outcome(base: Seq<u8>, node: Seq<BranchModel>, pivots: nat) -> Result<
    (SolutionModel, Sense),
    LpError,
> {
    match loaded(node_text(base, node), false) {
        Err(e) => Err(LpError::Parse(e)),
        Ok(l) => match solve_penalty(l.rows, l.vars, l.names, l.sense, pivots) {
            Err(e) => Err(e),
            Ok(s) => Ok((s, l.sense)),
        },
    }
}

/// The first index from `k` on at which a value is not whole.
pub open spec fn first_fractional(values: Seq<Ratio>, k: int) -> Option<int>
    decreases values.len() - k,
{
    if k < 0 || k >= values.len() {
        None
    } else if !values[k].is_integer() {
        Some(k)
    } else {
        first_fractional(values, k + 1)
    }
}

/// An objective `z` beats the best solution found: there is none yet, or `z`
/// is strictly smaller in a minimisation, strictly larger in a maximisation.
pub open spec fn better(z: Ratio, sense: Sense, best: Option<(SolutionModel, Sense)>) -> bool {
    match best {
        None => true,
        Some(b) => match sense {
            Sense::Minimize => z.lt(b.0.objective),
            Sense::Maximize => b.0.objective.lt(z),
        },
    }
}

/// The children of a node whose variable `name` has the fractional value
/// `value`: the node with `name <= floor(value)`, then the node with `name >=
/// ceil(value)`, each only where the node does not hold that bound already.
pub open spec fn children(node: Seq<BranchModel>, name: Seq<u8>, value: Ratio) -> Seq<
    Seq<BranchModel>,
> {
    let lo = BranchModel { name, relation: Relation::Le, bound: value.floor() };
    let hi = BranchModel { name, relation: Relation::Ge, bound: value.ceil() };
    let a = if node.contains(lo) {
        Seq::<Seq<BranchModel>>::empty()
    } else {
        seq![node.push(lo)]
    };
    let b = if node.contains(hi) {
        Seq::<Seq<BranchModel>>::empty()
    } else {
        seq![node.push(hi)]
    };
    a + b
}

/// The state of the search: the nodes still to visit, the last one first, and
/// the best whole solution found.
pub struct SearchModel {
    pub stack: Seq<Seq<BranchModel>>,
    pub best: Option<(SolutionModel, Sense)>,
}

/// The state after a node has been visited, given what solving it gave and the
/// state without the node.
///
/// A node that fails to load or to solve is dropped, but for a value out of
/// range or an exhausted allowance, which end the search. A whole solution
/// replaces the best one where it beats it. A fractional one puts the node's
/// children on the stack.
pub open spec fn visit_model(
    rest: SearchModel,
    node: Seq<BranchModel>,
    outcome: Result<(SolutionModel, Sense), LpError>,
) -> Result<SearchModel, LpError> {
    match outcome {
        Err(LpError::Overflow) => Err(LpError::Overflow),
        Err(LpError::IterationLimit) => Err(LpError::IterationLimit),
        Err(_) => Ok(rest),
        Ok((sol, sense)) => match first_fractional(sol.values, 0) {
            None => Ok(
                SearchModel {
                    best: if better(sol.objective, sense, rest.best) {
                        Some((sol, sense))
                    } else {
                        rest.best
                    },
                    ..rest
                },
            ),
            Some(k) => Ok(
                SearchModel {
                    stack: rest.stack + children(node, sol.names[k], sol.values[k]),
                    ..rest
                },
            ),
        },
    }
}

/// The result of the search from a state, visiting at most `nodes` nodes with
/// at most `pivots` iterations of the kernel each.
pub open spec fn search(base: Seq<u8>, st: SearchModel, nodes: nat, pivots: nat) -> Result<
    (SolutionModel, Sense),
    LpError,
>
    decreases nodes,
{
    if st.stack.len() == 0 {
        match st.best {
            Some(b) => Ok(b),
            None => Err(LpError::NoIntegerSolution),
        }
    } else if nodes == 0 {
        Err(LpError::IterationLimit)
    } else {
        let node = st.stack.last();
        let rest = SearchModel { stack: st.stack.drop_last(), ..st };
        match visit_model(rest, node, node_outcome(base, node, pivots)) {
            Err(e) => Err(e),
            Ok(next) => search(base, next, (nodes - 1) as nat, pivots),
        }
    }
}

/// The model of a solution with its sense.
pub open spec fn found_view(f: (Vec<(Vec<u8>, Rational)>, Sense, Rational)) -> (
    SolutionModel,
    Sense,
) {
    (
        SolutionModel {
            names: entry_names(f.0@),
            values: entry_values(f.0@),
            objective: f.2@,
        },
        f.1,
    )
}

/// The model of what solving a node, or the search, returns.
pub open spec fn outcome_view(
    r: Result<(Vec<(Vec<u8>, Rational)>, Sense, Rational), LpError>,
) -> Result<(SolutionModel, Sense), LpError> {
    match r {
        Ok(f) => Ok(found_view(f)),
        Err(e) => Err(e),
    }
}

/// The model of the best solution found, if any.
pub open spec fn best_view(b: Option<(Vec<(Vec<u8>, Rational)>, Sense, Rational)>) -> Option<
    (SolutionModel, Sense),
> {
    match b {
        Some(f) => Some(found_view(f)),
        None => None,
    }
}

/// Every node of the stack can be written.
pub open spec fn stack_wf(s: Seq<Node>) -> bool {
    forall|k: int| 0 <= k < s.len() ==> (#[trigger] s[k]).wf()
}

/// Solves a node in penalty mode.
pub fn solve_node(base: &[u8], node: &Node, max_iterations: usize) -> (r: Result<
    (Vec<(Vec<u8>, Rational)>, Sense, Rational),
    LpError,
>)
    requires
        node.wf(),
    ensures
        outcome_view(r) == node_outcome(base@, node@, max_iterations as nat),
{
    let text = node.to_lp_string(base);
    match load_text(text.as_slice(), false) {
        Err(e) => Err(LpError::Parse(e)),
        Ok(l) => {
            let mut matrix = l.matrix;
            let mut variables = l.variables;
            match solve_system(&mut matrix, &mut variables, &l.names, l.sense, max_iterations) {
                Err(e) => Err(e),
                Ok((entries, z)) => Ok((entries, l.sense, z)),
            }
        },
    }
}

/// Finds the first value that is not whole.
pub fn find_fractional(entries: &Vec<(Vec<u8>, Rational)>) -> (r: Option<usize>)
    ensures
        match r {
            Some(k) => first_fractional(entry_values(entries@), 0) == Some(k as int) && k
                < entries.len(),
            None => first_fractional(entry_values(entries@), 0) is None,
        },
{
    let ghost values = entry_values(entries@);
    let mut k: usize = 0;
    while k < entries.len()
        invariant
            k <= entries.len(),
            values == entry_values(entries@),
            first_fractional(values, 0) == first_fractional(values, k as int),
        decreases entries.len() - k,
    {
        let v = entries[k].1;
        assert(values[k as int] == v@);
        if !v.is_integer() {
            return Some(k);
        }
        k += 1;
    }
    None
}

/// Takes in what solving `node` gave: drops the node, keeps its solution where
/// it is whole and beats the best one, or puts its children on the stack.
pub fn visit(
    stack: &mut Vec<Node>,
    best: &mut Option<(Vec<(Vec<u8>, Rational)>, Sense, Rational)>,
    node: &Node,
    outcome: Result<(Vec<(Vec<u8>, Rational)>, Sense, Rational), LpError>,
) -> (r: Result<(), LpError>)
    requires
        stack_wf(old(stack)@),
        node.wf(),
    ensures
        match r {
            Ok(_) => visit_model(
                SearchModel { stack: stack_view(old(stack)@), best: best_view(*old(best)) },
                node@,
                outcome_view(outcome),
            ) == Ok::<SearchModel, LpError>(
                SearchModel { stack: stack_view(final(stack)@), best: best_view(*final(best)) },
            ) && stack_wf(final(stack)@),
            Err(e) => visit_model(
                SearchModel { stack: stack_view(old(stack)@), best: best_view(*old(best)) },
                node@,
                outcome_view(outcome),
            ) == Err::<SearchModel, LpError>(e),
        },
{
    let ghost before = stack_view(stack@);
    match outcome {
        Err(LpError::Overflow) => Err(LpError::Overflow),
        Err(LpError::IterationLimit) => Err(LpError::IterationLimit),
        Err(_) => Ok(()),
        Ok(found) => {
            match find_fractional(&found.0) {
                None => {
                    let wins = match best {
                        None => true,
                        Some(b) => match found.1 {
                            Sense::Minimize => found.2.lt(b.2),
                            Sense::Maximize => b.2.lt(found.2),
                        },
                    };
                    if wins {
                        *best = Some(found);
                    }
                    Ok(())
                },
                Some(k) => {
                    let name = &found.0[k].0;
                    let value = found.0[k].1;
                    assert(entry_names(found.0@)[k as int] == name@);
                    assert(entry_values(found.0@)[k as int] == value@);
                    let lo = value.floor();
                    let hi = value.ceil();
                    if !node.contains_constraint(name, Relation::Le, lo) {
                        let child = node.with_constraint(name, Relation::Le, lo);
                        stack.push(child);
                    }
                    let ghost mid = stack_view(stack@);
                    if !node.contains_constraint(name, Relation::Ge, hi) {
                        let child = node.with_constraint(name, Relation::Ge, hi);
                        stack.push(child);
                    }
                    assert(stack_view(stack@) =~= before + children(node@, name@, value@));
                    Ok(())
                },
            }
        },
    }
}

/// Searches for a solution in whole numbers of the problem that a text states,
/// visiting at most `max_nodes` nodes with at most `max_iterations` iterations
/// of the kernel each. Returns the best whole solution among those of the
/// nodes: the assignment, the sense and the objective.
pub fn branch_and_bound(file: &str, max_nodes: usize, max_iterations: usize) -> (r: Result<
    (Vec<(Vec<u8>, Rational)>, Sense, Rational),
    LpError,
>)
    ensures
        outcome_view(r) == search(
            file.spec_bytes(),
            SearchModel { stack: seq![Seq::<BranchModel>::empty()], best: None },
            max_nodes as nat,
            max_iterations as nat,
        ),
        r is Ok ==> is_whole(entry_values(r->Ok_0.0@)) && solves_a_node(
            file.spec_bytes(),
            max_iterations as nat,
            found_view(r->Ok_0),
        ),
{
    proof {
        lemma_search_returns_whole_solution(
            file.spec_bytes(),
            SearchModel { stack: seq![Seq::<BranchModel>::empty()], best: None },
            max_nodes as nat,
            max_iterations as nat,
        );
    }
    let base = file.as_bytes();
    let mut stack: Vec<Node> = Vec::new();
    stack.push(Node::root());
    let mut best: Option<(Vec<(Vec<u8>, Rational)>, Sense, Rational)> = None;
    let mut left: usize = max_nodes;
    let ghost start = SearchModel { stack: seq![Seq::<BranchModel>::empty()], best: None };
    assert(stack_view(stack@) =~= start.stack);
    loop
        invariant
            base@ == file.spec_bytes(),
            stack_wf(stack@),
            start == (SearchModel { stack: seq![Seq::<BranchModel>::empty()], best: None }),
            search(base@, start, max_nodes as nat, max_iterations as nat) is Ok ==> is_whole(
                search(base@, start, max_nodes as nat, max_iterations as nat)->Ok_0.0.values,
            ) && solves_a_node(
                base@,
                max_iterations as nat,
                search(base@, start, max_nodes as nat, max_iterations as nat)->Ok_0,
            ),
            search(base@, start, max_nodes as nat, max_iterations as nat) == search(
                base@,
                SearchModel { stack: stack_view(stack@), best: best_view(best) },
                left as nat,
                max_iterations as nat,
            ),
        decreases left,
    {
        let ghost now = SearchModel { stack: stack_view(stack@), best: best_view(best) };
        match stack.pop() {
            None => {
                return match best {
                    Some(b) => Ok(b),
                    None => Err(LpError::NoIntegerSolution),
                };
            },
            Some(node) => {
                assert(now.stack.last() == node@);
                assert(stack_view(stack@) =~= now.stack.drop_last());
                if left == 0 {
                    return Err(LpError::IterationLimit);
                }
                left -= 1;
                let outcome = solve_node(base, &node, max_iterations);
                match visit(&mut stack, &mut best, &node, outcome) {
                    Err(e) => {
                        return Err(e);
                    },
                    Ok(_) => {},
                }
            },
        }
    }
}

/// Every value is whole.
pub open spec fn is_whole(values: Seq<Ratio>) -> bool {
    forall|k: int| 0 <= k < values.len() ==> (#[trigger] values[k]).is_integer()
}

/// No value from `k` on is found fractional exactly where all of them are
/// whole; a value found fractional is the first that is.
pub proof fn lemma_first_fractional(values: Seq<Ratio>, k: int)
    requires
        0 <= k,
    ensures
        match first_fractional(values, k) {
            None => forall|i: int| k <= i < values.len() ==> (#[trigger] values[i]).is_integer(),
            Some(f) => k <= f < values.len() && !values[f].is_integer() && forall|i: int|
                k <= i < f ==> (#[trigger] values[i]).is_integer(),
        },
    decreases values.len() - k,
{
    if k < values.len() && values[k].is_integer() {
        lemma_first_fractional(values, k + 1);
    }
}

/// The solution is that of some node of the problem: of the text with bounds
/// added.
pub open spec fn solves_a_node(base: Seq<u8>, pivots: nat, b: (SolutionModel, Sense)) -> bool {
    exists|node: Seq<BranchModel>| #[trigger] node_outcome(base, node, pivots) == Ok::<
        (SolutionModel, Sense),
        LpError,
    >(b)
}

/// What the search returns is whole and is the solution of a node, where the
/// best solution from which it starts, if any, is.
pub proof fn lemma_search_returns_whole_solution(
    base: Seq<u8>,
    st: SearchModel,
    nodes: nat,
    pivots: nat,
)
    requires
        st.best is Some ==> is_whole(st.best->Some_0.0.values) && solves_a_node(
            base,
            pivots,
            st.best->Some_0,
        ),
    ensures
        search(base, st, nodes, pivots) is Ok ==> is_whole(
            search(base, st, nodes, pivots)->Ok_0.0.values,
        ) && solves_a_node(base, pivots, search(base, st, nodes, pivots)->Ok_0),
    decreases nodes,
{
    if st.stack.len() > 0 && nodes > 0 {
        let node = st.stack.last();
        let rest = SearchModel { stack: st.stack.drop_last(), ..st };
        let outcome = node_outcome(base, node, pivots);
        match visit_model(rest, node, outcome) {
            Err(_) => {},
            Ok(next) => {
                if outcome is Ok {
                    lemma_first_fractional(outcome->Ok_0.0.values, 0);
                }
                lemma_search_returns_whole_solution(base, next, (nodes - 1) as nat, pivots);
            },
        }
    }
}

/// Where the problem as given has a whole solution, the search returns it from
/// the first node, without children.
pub proof fn lemma_whole_relaxation_is_returned(base: Seq<u8>, nodes: nat, pivots: nat)
    requires
        nodes >= 1,
        node_outcome(base, Seq::empty(), pivots) is Ok,
        is_whole(node_outcome(base, Seq::empty(), pivots)->Ok_0.0.values),
    ensures
        visit_model(
            SearchModel { stack: Seq::empty(), best: None },
            Seq::empty(),
            node_outcome(base, Seq::empty(), pivots),
        ) == Ok::<SearchModel, LpError>(
            SearchModel {
                stack: Seq::empty(),
                best: Some(node_outcome(base, Seq::empty(), pivots)->Ok_0),
            },
        ),
        search(
            base,
            SearchModel { stack: seq![Seq::<BranchModel>::empty()], best: None },
            nodes,
            pivots,
        ) == node_outcome(base, Seq::empty(), pivots),
{
    let root = Seq::<BranchModel>::empty();
    let outcome = node_outcome(base, root, pivots);
    let st = SearchModel { stack: seq![root], best: None };
    let rest = SearchModel { stack: st.stack.drop_last(), ..st };
    lemma_first_fractional(outcome->Ok_0.0.values, 0);
    assert(st.stack.last() == root);
    assert(rest.stack =~= Seq::<Seq<BranchModel>>::empty());
    let next = SearchModel { stack: Seq::empty(), best: Some(outcome->Ok_0) };
    assert(visit_model(rest, root, outcome) == Ok::<SearchModel, LpError>(next));
    assert(search(base, next, (nodes - 1) as nat, pivots) == outcome);
}

} // verus!
