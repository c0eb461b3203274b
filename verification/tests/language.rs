use simplexe::error::{ParseError, ParseErrorKind};
use simplexe::loader::{
    bytes_equal, find_name, load_program, load_text, make_artificial_cost, make_auxiliary_name,
    parse_lp_bigm, parse_lp_two_phases, push_digits, widen_row,
};
use simplexe::rational::Rational;
use simplexe::tableau::Sense;
use simplexe::text::{
    copy_range, name_end_from, read_constraint, read_number, read_numeral, read_objective,
    read_relation, read_semicolon, read_sum, read_term, skip_spaces_from, LPParser, Relation,
};

fn q(n: i64, d: i64) -> Rational {
    Rational::new(n, d).unwrap()
}

fn same(a: Rational, n: i64, d: i64) -> bool {
    a.numer() == n && a.denom() == d
}

fn assert_row(got: &[Rational], want: &[(i64, i64)]) {
    assert_eq!(got.len(), want.len());
    for (g, w) in got.iter().zip(want.iter()) {
        assert!(same(*g, w.0, w.1), "{:?} is not {}/{}", g, w.0, w.1);
    }
}

fn error_of(text: &str) -> ParseError {
    LPParser::parse(text.as_bytes()).unwrap_err()
}

#[test]
fn spaces_and_names() {
    assert_eq!(skip_spaces_from(b" \t\r\n x", 0), 5);
    assert_eq!(skip_spaces_from(b"x  ", 0), 0);
    assert_eq!(skip_spaces_from(b"x  ", 1), 3);
    assert_eq!(name_end_from(b"x_1a+2", 0), 4);
    assert_eq!(name_end_from(b"abc", 1), 3);
    assert_eq!(name_end_from(b"+", 0), 0);
    assert_eq!(copy_range(b"hello", 1, 4), b"ell".to_vec());
    assert_eq!(copy_range(b"hello", 2, 2), Vec::<u8>::new());
}

#[test]
fn numerals_are_exact() {
    let (v, e) = read_numeral(b"1.5;", 0).unwrap();
    assert!(same(v, 3, 2));
    assert_eq!(e, 3);
    let (v, e) = read_numeral(b"42", 0).unwrap();
    assert!(same(v, 42, 1));
    assert_eq!(e, 2);
    let (v, e) = read_numeral(b"0.125x", 0).unwrap();
    assert!(same(v, 1, 8));
    assert_eq!(e, 5);
    let (v, e) = read_numeral(b"007.50", 0).unwrap();
    assert!(same(v, 15, 2));
    assert_eq!(e, 6);
    // a point without a digit after it is not part of the numeral
    let (v, e) = read_numeral(b"3.x", 0).unwrap();
    assert!(same(v, 3, 1));
    assert_eq!(e, 1);
    let (v, _) = read_numeral(b"9223372036854775807", 0).unwrap();
    assert!(same(v, i64::MAX, 1));
    let (v, _) = read_numeral(b"0.000000000000000001", 0).unwrap();
    assert!(same(v, 1, 1_000_000_000_000_000_000));
}

#[test]
fn numerals_out_of_range_are_refused() {
    let range = |at| ParseError { position: at, kind: ParseErrorKind::Range };
    assert_eq!(read_numeral(b"9223372036854775808", 0).unwrap_err(), range(0));
    assert_eq!(read_numeral(b" 99999999999999999999", 1).unwrap_err(), range(1));
    assert_eq!(read_numeral(b"0.0000000000000000001", 0).unwrap_err(), range(0));
    assert_eq!(read_numeral(b"1.0000000000000000000", 0).unwrap_err(), range(0));
}

#[test]
fn terms() {
    let (t, e) = read_term(b"+ 3 x1;", 0).unwrap();
    assert!(same(t.coeff, 3, 1));
    assert_eq!(t.name, b"x1".to_vec());
    assert_eq!(t.at, 4);
    assert_eq!(e, 6);
    let (t, _) = read_term(b"-x", 0).unwrap();
    assert!(same(t.coeff, -1, 1));
    let (t, _) = read_term(b"x", 0).unwrap();
    assert!(same(t.coeff, 1, 1));
    let (t, _) = read_term(b"- 2.5y_2", 0).unwrap();
    assert!(same(t.coeff, -5, 2));
    assert_eq!(t.name, b"y_2".to_vec());
    let (t, _) = read_term(b"+x", 0).unwrap();
    assert!(same(t.coeff, 1, 1));
    let (t, _) = read_term(b"_a", 0).unwrap();
    assert_eq!(t.name, b"_a".to_vec());
    assert_eq!(
        read_term(b"3 ;", 0).unwrap_err(),
        ParseError { position: 2, kind: ParseErrorKind::Variable }
    );
    assert_eq!(
        read_term(b"", 0).unwrap_err(),
        ParseError { position: 0, kind: ParseErrorKind::Variable }
    );
}

#[test]
fn sums() {
    let (ts, e) = read_sum(b"2 x1 + 3 x2 - x3 <= 4", 0).unwrap();
    assert_eq!(ts.len(), 3);
    assert!(same(ts[0].coeff, 2, 1));
    assert!(same(ts[1].coeff, 3, 1));
    assert!(same(ts[2].coeff, -1, 1));
    assert_eq!(ts[2].name, b"x3".to_vec());
    assert_eq!(e, 17);
    // a term without a sign does not go on the sum
    let (ts, e) = read_sum(b"x y", 0).unwrap();
    assert_eq!(ts.len(), 1);
    assert_eq!(e, 2);
    assert_eq!(
        read_sum(b"x + ;", 0).unwrap_err(),
        ParseError { position: 4, kind: ParseErrorKind::Variable }
    );
}

#[test]
fn relations_numbers_and_semicolons() {
    assert_eq!(read_relation(b"<= 1", 0).unwrap(), (Relation::Le, 2));
    assert_eq!(read_relation(b">= 1", 0).unwrap(), (Relation::Ge, 2));
    assert_eq!(read_relation(b"= 1", 0).unwrap(), (Relation::Eq, 1));
    assert_eq!(
        read_relation(b"< 1", 0).unwrap_err(),
        ParseError { position: 0, kind: ParseErrorKind::Relation }
    );
    assert_eq!(
        read_relation(b"", 0).unwrap_err(),
        ParseError { position: 0, kind: ParseErrorKind::Relation }
    );
    let (v, e) = read_number(b"-3;", 0).unwrap();
    assert!(same(v, -3, 1));
    assert_eq!(e, 2);
    let (v, _) = read_number(b"+ 0.5", 0).unwrap();
    assert!(same(v, 1, 2));
    let (v, _) = read_number(b"12", 0).unwrap();
    assert!(same(v, 12, 1));
    assert_eq!(
        read_number(b"- x", 0).unwrap_err(),
        ParseError { position: 2, kind: ParseErrorKind::Number }
    );
    assert_eq!(read_semicolon(b";", 0).unwrap(), 1);
    assert_eq!(
        read_semicolon(b"x", 0).unwrap_err(),
        ParseError { position: 0, kind: ParseErrorKind::Semicolon }
    );
}

#[test]
fn statements() {
    let (sense, ts, e) = read_objective(b"min x - 2 y ;", 0).unwrap();
    assert_eq!(sense, Sense::Minimize);
    assert_eq!(ts.len(), 2);
    assert_eq!(e, 13);
    let (sense, _, _) = read_objective(b"max x;", 0).unwrap();
    assert_eq!(sense, Sense::Maximize);
    let (c, e) = read_constraint(b"x + y >= -1.5 ; z", 0).unwrap();
    assert_eq!(c.terms.len(), 2);
    assert_eq!(c.relation, Relation::Ge);
    assert!(same(c.rhs, -3, 2));
    assert_eq!(c.at, 0);
    assert_eq!(e, 15);
}

#[test]
fn a_whole_text() {
    let p = LPParser::parse(b"  max 2 x1 + 3 x2;\n x1 + x2 <= 4;\n\n x1 + 3 x2 = 6 ;\n").unwrap();
    assert_eq!(p.sense, Sense::Maximize);
    assert_eq!(p.objective.len(), 2);
    assert_eq!(p.constraints.len(), 2);
    assert_eq!(p.constraints[1].relation, Relation::Eq);
    assert!(same(p.constraints[1].rhs, 6, 1));
    assert!(same(p.constraints[1].terms[1].coeff, 3, 1));
    let alone = LPParser::parse(b"min x;").unwrap();
    assert_eq!(alone.constraints.len(), 0);
}

#[test]
fn each_kind_of_error_with_its_place() {
    let e = |position, kind| ParseError { position, kind };
    assert_eq!(error_of(""), e(0, ParseErrorKind::Objective));
    assert_eq!(error_of("  maz x;"), e(2, ParseErrorKind::Objective));
    assert_eq!(error_of("x <= 1;"), e(0, ParseErrorKind::Objective));
    assert_eq!(error_of("max ;"), e(4, ParseErrorKind::Variable));
    assert_eq!(error_of("max 2;"), e(5, ParseErrorKind::Variable));
    assert_eq!(error_of("max x y;"), e(6, ParseErrorKind::Semicolon));
    assert_eq!(error_of("max x"), e(5, ParseErrorKind::Semicolon));
    assert_eq!(error_of("max x; x < 1;"), e(9, ParseErrorKind::Relation));
    assert_eq!(error_of("max x; x;"), e(8, ParseErrorKind::Relation));
    assert_eq!(error_of("max x; x <= y;"), e(12, ParseErrorKind::Number));
    assert_eq!(error_of("max x; x <= 1"), e(13, ParseErrorKind::Semicolon));
    assert_eq!(error_of("max x; x <= 1.;"), e(13, ParseErrorKind::Semicolon));
    assert_eq!(error_of("max x; x <= 99999999999999999999;"), e(12, ParseErrorKind::Range));
    assert_eq!(error_of("max x; <= 1;"), e(7, ParseErrorKind::Variable));
}

#[test]
fn penalty_loading_of_the_two_row_problem() {
    let (matrix, variables, sense, names) =
        parse_lp_bigm("max 2 x1 + 3 x2;\nx1 + x2 <= 4;\nx1 + 3 x2 <= 6;").unwrap();
    assert_eq!(sense, Sense::Maximize);
    assert_eq!(names, vec![b"x1".to_vec(), b"x2".to_vec(), b"s0".to_vec(), b"s1".to_vec()]);
    assert_eq!(matrix.len(), 2);
    assert_row(&matrix[0], &[(4, 1), (1, 1), (1, 1), (1, 1), (0, 1)]);
    assert_row(&matrix[1], &[(6, 1), (1, 1), (3, 1), (0, 1), (1, 1)]);
    assert_eq!(variables.len(), 4);
    for (j, v) in variables.iter().enumerate() {
        assert_eq!(v.column, j + 1);
        assert!(!v.is_artificial);
    }
    assert!(same(variables[0].cost, 2, 1));
    assert!(same(variables[1].cost, 3, 1));
    assert!(!variables[0].in_base && variables[0].row == usize::MAX && !variables[0].is_slack);
    assert!(variables[2].in_base && variables[2].row == 0 && variables[2].is_slack);
    assert!(variables[3].in_base && variables[3].row == 1 && variables[3].is_slack);
    assert!(same(variables[2].cost, 0, 1));
}

#[test]
fn auxiliary_variables_follow_the_relation() {
    let (matrix, variables, sense, names) =
        parse_lp_bigm("min x + y;\nx >= 1;\nx + y = 3;\ny <= 2;\nz >= 0;").unwrap();
    assert_eq!(sense, Sense::Minimize);
    let expected: Vec<Vec<u8>> = ["x", "y", "s0", "a0", "a1", "s1", "z", "s2", "a2"]
        .iter()
        .map(|n| n.as_bytes().to_vec())
        .collect();
    assert_eq!(names, expected);
    assert_row(
        &matrix[0],
        &[(1, 1), (1, 1), (0, 1), (-1, 1), (1, 1), (0, 1), (0, 1), (0, 1), (0, 1), (0, 1)],
    );
    assert_row(
        &matrix[1],
        &[(3, 1), (1, 1), (1, 1), (0, 1), (0, 1), (1, 1), (0, 1), (0, 1), (0, 1), (0, 1)],
    );
    assert_row(
        &matrix[2],
        &[(2, 1), (0, 1), (1, 1), (0, 1), (0, 1), (0, 1), (1, 1), (0, 1), (0, 1), (0, 1)],
    );
    assert_row(
        &matrix[3],
        &[(0, 1), (0, 1), (0, 1), (0, 1), (0, 1), (0, 1), (0, 1), (1, 1), (-1, 1), (1, 1)],
    );
    // costs are stored for a maximisation
    assert!(same(variables[0].cost, -1, 1));
    assert!(same(variables[1].cost, -1, 1));
    // the slack of `>=` is not basic, its artificial variable is
    assert!(variables[2].is_slack && !variables[2].in_base);
    assert!(variables[3].is_artificial && variables[3].in_base && variables[3].row == 0);
    assert!(same(variables[3].cost, -1_000_000_000_000, 1));
    assert!(variables[4].is_artificial && variables[4].in_base && variables[4].row == 1);
    assert!(variables[5].is_slack && variables[5].in_base && variables[5].row == 2);
    assert!(!variables[6].is_slack && !variables[6].is_artificial && !variables[6].in_base);
    assert!(same(variables[6].cost, 0, 1));
    assert!(variables[8].is_artificial && variables[8].row == 3);
}

#[test]
fn two_phase_loading_keeps_the_costs_apart() {
    let (matrix, variables, sense, names, costs) =
        parse_lp_two_phases("min 2 x + y + x;\nx + y >= 1;\ny <= 2;").unwrap();
    assert_eq!(sense, Sense::Minimize);
    assert_eq!(names.len(), 5);
    assert_eq!(matrix[0].len(), 6);
    assert_eq!(costs.len(), 5);
    // first phase: nothing for the variables of the problem, -1 for artificial ones
    assert!(same(variables[0].cost, 0, 1));
    assert!(same(variables[1].cost, 0, 1));
    assert!(same(variables[2].cost, 0, 1));
    assert!(same(variables[3].cost, -1, 1));
    assert!(same(variables[4].cost, 0, 1));
    // second phase: the costs as given, summed by name, negated for a minimisation
    assert!(same(costs[0], -3, 1));
    assert!(same(costs[1], -1, 1));
    assert!(same(costs[2], 0, 1));
    assert!(same(costs[3], 0, 1));
    assert!(same(costs[4], 0, 1));
}

#[test]
fn repeated_names_add_up() {
    let (matrix, variables, _, names) =
        parse_lp_bigm("max x + 2 x;\nx + y + 0.5 x - y <= 3;").unwrap();
    assert_eq!(names, vec![b"x".to_vec(), b"y".to_vec(), b"s0".to_vec()]);
    assert!(same(variables[0].cost, 3, 1));
    assert_row(&matrix[0], &[(3, 1), (3, 2), (0, 1), (1, 1)]);
}

#[test]
fn sums_of_costs_out_of_range_are_refused() {
    let e = parse_lp_bigm("max 9000000000000000000 x + 9000000000000000000 x;\nx <= 1;")
        .unwrap_err();
    assert_eq!(e, ParseError { position: 48, kind: ParseErrorKind::Range });
    let e = parse_lp_bigm("max x;\n9000000000000000000 x + 9000000000000000000 x <= 1;")
        .unwrap_err();
    assert_eq!(e, ParseError { position: 51, kind: ParseErrorKind::Range });
}

#[test]
fn loading_in_steps() {
    let p = LPParser::parse(b"max x;\nx <= 1;").unwrap();
    let l = load_program(&p, false).unwrap();
    assert_eq!(l.matrix.len(), 1);
    assert_eq!(l.names.len(), 2);
    assert_eq!(l.costs.len(), 2);
    let l2 = load_text(b"max x;\nx <= 1;", true).unwrap();
    assert_eq!(l2.names, l.names);
    assert_eq!(
        load_text(b"max x;\nx <= ;", true).unwrap_err(),
        ParseError { position: 12, kind: ParseErrorKind::Number }
    );
}

#[test]
fn loader_helpers() {
    assert!(bytes_equal(&b"abc".to_vec(), &b"abc".to_vec()));
    assert!(!bytes_equal(&b"abc".to_vec(), &b"abd".to_vec()));
    assert!(!bytes_equal(&b"abc".to_vec(), &b"ab".to_vec()));
    assert!(bytes_equal(&Vec::new(), &Vec::new()));
    let names = vec![b"x".to_vec(), b"y".to_vec(), b"x".to_vec()];
    assert_eq!(find_name(&names, &b"x".to_vec()), Some(0));
    assert_eq!(find_name(&names, &b"y".to_vec()), Some(1));
    assert_eq!(find_name(&names, &b"z".to_vec()), None);
    let mut out = b"n=".to_vec();
    push_digits(&mut out, 0);
    push_digits(&mut out, 907);
    assert_eq!(out, b"n=0907".to_vec());
    let mut out = Vec::new();
    push_digits(&mut out, u64::MAX);
    assert_eq!(out, b"18446744073709551615".to_vec());
    assert_eq!(make_auxiliary_name(115, 12), b"s12".to_vec());
    assert_eq!(make_auxiliary_name(97, 0), b"a0".to_vec());
    let mut row = vec![q(1, 2)];
    widen_row(&mut row, 3);
    assert_row(&row, &[(1, 2), (0, 1), (0, 1)]);
    widen_row(&mut row, 2);
    assert_eq!(row.len(), 3);
    assert!(same(make_artificial_cost(true), -1, 1));
    assert!(same(make_artificial_cost(false), -1_000_000_000_000, 1));
}
