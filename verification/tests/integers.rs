use simplexe::error::{LpError, ParseError, ParseErrorKind};
use simplexe::rational::Rational;
use simplexe::search::{
    branch_and_bound, find_fractional, push_all, push_branch, solve_node, visit, Branch, Node,
};
use simplexe::tableau::Sense;
use simplexe::text::Relation;

fn q(n: i64, d: i64) -> Rational {
    Rational::new(n, d).unwrap()
}

fn same(a: Rational, n: i64, d: i64) -> bool {
    a.numer() == n && a.denom() == d
}

fn assert_values(entries: &[(Vec<u8>, Rational)], expected: &[(&str, i64, i64)]) {
    assert_eq!(entries.len(), expected.len());
    for (entry, want) in entries.iter().zip(expected.iter()) {
        assert_eq!(entry.0.as_slice(), want.0.as_bytes());
        assert!(same(entry.1, want.1, want.2), "{:?} for {}", entry.1, want.0);
    }
}

fn bounds_of(node: &Node) -> Vec<(Vec<u8>, Relation, i64)> {
    node.constraints.iter().map(|b| (b.name.clone(), b.relation, b.bound)).collect()
}

#[test]
fn a_whole_relaxation_is_returned_without_children() {
    let text = "max 2 x1 + 3 x2;\nx1 + x2 <= 4;\nx1 + 3 x2 <= 6;";
    let (entries, sense, z) = branch_and_bound(text, 1, 100).unwrap();
    assert_values(&entries, &[("x1", 3, 1), ("x2", 1, 1)]);
    assert_eq!(sense, Sense::Maximize);
    assert!(same(z, 9, 1));
    // visiting the root leaves the stack empty
    let root = Node::root();
    let outcome = solve_node(text.as_bytes(), &root, 100);
    let mut stack: Vec<Node> = Vec::new();
    let mut best = None;
    assert_eq!(visit(&mut stack, &mut best, &root, outcome), Ok(()));
    assert!(stack.is_empty());
    let found = best.unwrap();
    assert!(same(found.2, 9, 1));
}

#[test]
fn the_bounded_corner_problem_ends_with_a_whole_solution() {
    let text = "max x1 + x2;\n2 x1 + x2 <= 4;\nx1 <= 1.5;";
    let (entries, sense, z) = branch_and_bound(text, 100, 100).unwrap();
    assert_values(&entries, &[("x1", 0, 1), ("x2", 4, 1)]);
    assert_eq!(sense, Sense::Maximize);
    assert!(same(z, 4, 1));
    for (_, v) in entries.iter() {
        assert!(v.is_integer());
    }
}

#[test]
fn a_fractional_relaxation_is_branched_on_its_first_fractional_variable() {
    // the relaxation has x = 3/2, y = 5/2
    let text = "max x + y;\n2 x + 2 y <= 8;\nx <= 1.5;\ny <= 2.5;";
    let root = Node::root();
    let outcome = solve_node(text.as_bytes(), &root, 100);
    let found = outcome.as_ref().unwrap();
    assert_values(&found.0, &[("x", 3, 2), ("y", 5, 2)]);
    assert!(same(found.2, 4, 1));
    let mut stack: Vec<Node> = Vec::new();
    let mut best = None;
    assert_eq!(visit(&mut stack, &mut best, &root, outcome), Ok(()));
    assert!(best.is_none());
    assert_eq!(stack.len(), 2);
    assert_eq!(bounds_of(&stack[0]), vec![(b"x".to_vec(), Relation::Le, 1)]);
    assert_eq!(bounds_of(&stack[1]), vec![(b"x".to_vec(), Relation::Ge, 2)]);
    let (entries, _, z) = branch_and_bound(text, 100, 100).unwrap();
    assert_values(&entries, &[("x", 1, 1), ("y", 2, 1)]);
    assert!(same(z, 3, 1));
}

#[test]
fn knapsack_in_whole_numbers() {
    let text = "max 5 x + 4 y;\n6 x + 4 y <= 24;\nx + 2 y <= 6;";
    let (entries, _, z) = branch_and_bound(text, 1000, 1000).unwrap();
    assert_values(&entries, &[("x", 4, 1), ("y", 0, 1)]);
    assert!(same(z, 20, 1));
}

#[test]
fn minimisation_keeps_the_smaller_objective() {
    let text = "min x + y;\n2 x + 2 y >= 3;";
    let (entries, sense, z) = branch_and_bound(text, 1000, 1000).unwrap();
    assert_eq!(sense, Sense::Minimize);
    assert!(same(z, 2, 1));
    for (_, v) in entries.iter() {
        assert!(v.is_integer());
    }
    let mut stack: Vec<Node> = Vec::new();
    let mut best = Some((vec![(b"x".to_vec(), q(2, 1))], Sense::Minimize, q(2, 1)));
    let root = Node::root();
    let worse = Ok((vec![(b"x".to_vec(), q(3, 1))], Sense::Minimize, q(3, 1)));
    assert_eq!(visit(&mut stack, &mut best, &root, worse), Ok(()));
    assert!(same(best.as_ref().unwrap().2, 2, 1));
    let equal = Ok((vec![(b"x".to_vec(), q(5, 1))], Sense::Minimize, q(2, 1)));
    assert_eq!(visit(&mut stack, &mut best, &root, equal), Ok(()));
    assert!(same(best.as_ref().unwrap().0[0].1, 2, 1));
    let finer = Ok((vec![(b"x".to_vec(), q(1, 1))], Sense::Minimize, q(1, 1)));
    assert_eq!(visit(&mut stack, &mut best, &root, finer), Ok(()));
    assert!(same(best.as_ref().unwrap().2, 1, 1));
    let larger = Ok((vec![(b"x".to_vec(), q(7, 1))], Sense::Maximize, q(7, 1)));
    assert_eq!(visit(&mut stack, &mut best, &root, larger), Ok(()));
    assert!(same(best.as_ref().unwrap().2, 7, 1));
    assert!(stack.is_empty());
}

#[test]
fn no_whole_solution() {
    let text = "max x;\n2 x = 1;\nx <= 1;";
    assert_eq!(branch_and_bound(text, 100, 100).unwrap_err(), LpError::NoIntegerSolution);
    assert_eq!(
        branch_and_bound("max x;\nx <= 1;\nx >= 2;", 100, 100).unwrap_err(),
        LpError::NoIntegerSolution
    );
    // a text that does not load is dropped like an infeasible node
    assert_eq!(branch_and_bound("max x", 100, 100).unwrap_err(), LpError::NoIntegerSolution);
    assert_eq!(
        branch_and_bound("max x;\nx >= 1;", 100, 100).unwrap_err(),
        LpError::NoIntegerSolution
    );
}

#[test]
fn exhausted_allowances_end_the_search() {
    let text = "max x + y;\n2 x + 2 y <= 8;\nx <= 1.5;\ny <= 2.5;";
    assert_eq!(branch_and_bound(text, 0, 100).unwrap_err(), LpError::IterationLimit);
    assert_eq!(branch_and_bound(text, 1, 100).unwrap_err(), LpError::IterationLimit);
    assert_eq!(branch_and_bound(text, 100, 1).unwrap_err(), LpError::IterationLimit);
    let big = "max 9000000000000000000 x + 9000000000000000000 y;\nx <= 3;\ny <= 3;";
    assert_eq!(branch_and_bound(big, 100, 100).unwrap_err(), LpError::Overflow);
}

#[test]
fn failures_of_a_node() {
    let root = Node::root();
    let mut stack: Vec<Node> = vec![Node::root()];
    let mut best = None;
    assert_eq!(visit(&mut stack, &mut best, &root, Err(LpError::Infeasible)), Ok(()));
    assert_eq!(visit(&mut stack, &mut best, &root, Err(LpError::Unbounded)), Ok(()));
    assert_eq!(
        visit(&mut stack, &mut best, &root, Err(LpError::Overflow)),
        Err(LpError::Overflow)
    );
    assert_eq!(
        visit(&mut stack, &mut best, &root, Err(LpError::IterationLimit)),
        Err(LpError::IterationLimit)
    );
    assert_eq!(stack.len(), 1);
    assert!(best.is_none());
}

#[test]
fn a_bound_that_the_node_holds_is_not_added_again() {
    let root = Node::root();
    let node = root.with_constraint(&b"x".to_vec(), Relation::Le, 1);
    assert!(node.contains_constraint(&b"x".to_vec(), Relation::Le, 1));
    assert!(!node.contains_constraint(&b"x".to_vec(), Relation::Ge, 1));
    assert!(!node.contains_constraint(&b"x".to_vec(), Relation::Le, 2));
    assert!(!node.contains_constraint(&b"y".to_vec(), Relation::Le, 1));
    assert!(!root.contains_constraint(&b"x".to_vec(), Relation::Le, 1));
    let mut stack: Vec<Node> = Vec::new();
    let mut best = None;
    let outcome = Ok((vec![(b"x".to_vec(), q(3, 2))], Sense::Maximize, q(3, 2)));
    assert_eq!(visit(&mut stack, &mut best, &node, outcome), Ok(()));
    assert_eq!(stack.len(), 1);
    assert_eq!(
        bounds_of(&stack[0]),
        vec![(b"x".to_vec(), Relation::Le, 1), (b"x".to_vec(), Relation::Ge, 2)]
    );
}

#[test]
fn the_text_of_a_node() {
    let node = Node::root()
        .with_constraint(&b"x1".to_vec(), Relation::Le, 1)
        .with_constraint(&b"y".to_vec(), Relation::Ge, -20)
        .with_constraint(&b"z".to_vec(), Relation::Eq, 0);
    assert_eq!(node.to_lp_string(b"max x1;"), b"max x1;\nx1 <= 1;\ny >= -20;\nz = 0;".to_vec());
    assert_eq!(Node::root().to_lp_string(b"max x1;"), b"max x1;".to_vec());
    let mut out = b"a".to_vec();
    push_all(&mut out, &b"bc".to_vec());
    assert_eq!(out, b"abc".to_vec());
    let b = Branch { name: b"w".to_vec(), relation: Relation::Le, bound: -i64::MAX };
    push_branch(&mut out, &b);
    assert_eq!(out, b"abc\nw <= -9223372036854775807;".to_vec());
}

#[test]
fn first_fractional_value() {
    let entries = vec![
        (b"a".to_vec(), q(1, 1)),
        (b"b".to_vec(), q(1, 2)),
        (b"c".to_vec(), q(1, 3)),
    ];
    assert_eq!(find_fractional(&entries), Some(1));
    assert_eq!(find_fractional(&entries[..1].to_vec()), None);
    assert_eq!(find_fractional(&Vec::new()), None);
}

#[test]
fn a_node_reports_why_it_has_no_solution() {
    let root = Node::root();
    assert_eq!(
        solve_node(b"max x", &root, 100).unwrap_err(),
        LpError::Parse(ParseError { position: 5, kind: ParseErrorKind::Semicolon })
    );
    assert_eq!(solve_node(b"max x;\nx >= 1;", &root, 100).unwrap_err(), LpError::Unbounded);
    assert_eq!(
        solve_node(b"max x;\nx <= 1;\nx >= 2;", &root, 100).unwrap_err(),
        LpError::Infeasible
    );
    assert_eq!(solve_node(b"max x;\nx <= 1;", &root, 1).unwrap_err(), LpError::IterationLimit);
    // a bound that names an unknown variable brings a new one
    let node = root.with_constraint(&b"y".to_vec(), Relation::Le, 3);
    let (entries, sense, z) = solve_node(b"max x;\nx <= 1;", &node, 100).unwrap();
    assert_values(&entries, &[("x", 1, 1), ("y", 0, 1)]);
    assert_eq!(sense, Sense::Maximize);
    assert!(same(z, 1, 1));
}

#[test]
fn the_crate_root_offers_the_solvers() {
    let (mut matrix, mut variables, sense, names) =
        simplexe::parse_lp_bigm("max x;\nx <= 2;").unwrap();
    let (entries, z) =
        simplexe::solve_system(&mut matrix, &mut variables, &names, sense, 10).unwrap();
    assert_values(&entries, &[("x", 2, 1)]);
    assert!(same(z, 2, 1));
    let (mut matrix, mut variables, sense, names, costs) =
        simplexe::parse_lp_two_phases("max x;\nx <= 2;").unwrap();
    let (_, z) = simplexe::solve_system_two_phases(
        &mut matrix,
        &mut variables,
        &names,
        &costs,
        sense,
        10,
    )
    .unwrap();
    assert!(same(z, 2, 1));
    let (_, _, z) = simplexe::branch_and_bound("max x;\nx <= 2.5;", 10, 10).unwrap();
    assert!(same(z, 2, 1));
    assert!(simplexe::LPParser::parse(b"max x;").is_ok());
}
