use simplexe::driver::find_basis;
use simplexe::loader::{parse_lp_bigm, parse_lp_two_phases};
use simplexe::pivot::{
    candidate_cost, next_row_of, pivot_step, scale_row, select_entering, select_leaving,
    Candidate, Entering, Leaving, Step,
};
use simplexe::rational::Rational;
use simplexe::tableau::{is_negligible, tolerance};

fn q(n: i64, d: i64) -> Rational {
    Rational::new(n, d).unwrap()
}

fn same(a: Rational, n: i64, d: i64) -> bool {
    a.numer() == n && a.denom() == d
}

fn row(values: &[(i64, i64)]) -> Vec<Rational> {
    values.iter().map(|v| q(v.0, v.1)).collect()
}

fn assert_row(got: &[Rational], want: &[(i64, i64)]) {
    assert_eq!(got.len(), want.len());
    for (g, w) in got.iter().zip(want.iter()) {
        assert!(same(*g, w.0, w.1), "{:?} is not {}/{}", g, w.0, w.1);
    }
}

const TWO_ROWS: &str = "max 2 x1 + 3 x2;\nx1 + x2 <= 4;\nx1 + 3 x2 <= 6;";

#[test]
fn reduced_costs_of_the_first_tableau() {
    let (matrix, variables, _, _) = parse_lp_bigm(TWO_ROWS).unwrap();
    let basis = find_basis(&variables, matrix.len());
    match candidate_cost(&matrix, &variables, &basis, false, 0) {
        Candidate::Cost(c) => assert!(same(c, -2, 1)),
        other => panic!("{:?}", other),
    }
    match candidate_cost(&matrix, &variables, &basis, false, 1) {
        Candidate::Cost(c) => assert!(same(c, -3, 1)),
        other => panic!("{:?}", other),
    }
    assert!(matches!(candidate_cost(&matrix, &variables, &basis, false, 2), Candidate::Ineligible));
    assert!(matches!(candidate_cost(&matrix, &variables, &basis, false, 3), Candidate::Ineligible));
}

#[test]
fn artificial_variables_do_not_enter_in_the_second_phase() {
    let (matrix, mut variables, _, _, _) = parse_lp_two_phases("max x;\nx >= 1;").unwrap();
    // x, s0, a0: make the artificial variable non-basic by hand
    variables[2].in_base = false;
    variables[1].in_base = true;
    variables[1].row = 0;
    let basis = vec![1];
    assert!(matches!(candidate_cost(&matrix, &variables, &basis, true, 2), Candidate::Ineligible));
    assert!(matches!(candidate_cost(&matrix, &variables, &basis, false, 2), Candidate::Cost(_)));
}

#[test]
fn entering_is_the_most_negative_cost_and_the_lowest_index_among_equals() {
    let cands = vec![
        Candidate::Cost(q(-1, 1)),
        Candidate::Ineligible,
        Candidate::Cost(q(-3, 1)),
        Candidate::Cost(q(-3, 1)),
        Candidate::Cost(q(-2, 1)),
    ];
    assert_eq!(select_entering(&cands), Entering::Column(2));
    let tie = vec![Candidate::Cost(q(-1, 1)), Candidate::Cost(q(-2, 2))];
    assert_eq!(select_entering(&tie), Entering::Column(0));
    let none = vec![Candidate::Cost(q(0, 1)), Candidate::Cost(q(1, 2)), Candidate::Ineligible];
    assert_eq!(select_entering(&none), Entering::Optimal);
    assert_eq!(select_entering(&vec![]), Entering::Optimal);
    assert_eq!(select_entering(&vec![Candidate::Ineligible]), Entering::Optimal);
    let over = vec![Candidate::Cost(q(-1, 1)), Candidate::Overflow];
    assert_eq!(select_entering(&over), Entering::Overflow);
}

#[test]
fn leaving_is_the_row_of_least_ratio() {
    let (matrix, variables, _, _) = parse_lp_bigm(TWO_ROWS).unwrap();
    let basis = find_basis(&variables, matrix.len());
    // column of x2: ratios 4/1 and 6/3
    assert_eq!(select_leaving(&matrix, &variables, &basis, 2, false), Leaving::Row(1));
    // column of x1: ratios 4/1 and 6/1
    assert_eq!(select_leaving(&matrix, &variables, &basis, 1, false), Leaving::Row(0));
}

#[test]
fn leaving_prefers_the_first_row_among_equal_ratios() {
    let (matrix, variables, _, _) =
        parse_lp_bigm("max x;\nx <= 2;\n2 x <= 4;\n3 x <= 6;").unwrap();
    let basis = find_basis(&variables, matrix.len());
    assert_eq!(select_leaving(&matrix, &variables, &basis, 1, false), Leaving::Row(0));
    assert_eq!(select_leaving(&matrix, &variables, &basis, 1, true), Leaving::Row(0));
}

#[test]
fn first_phase_ties_go_to_the_last_artificial_row() {
    let (matrix, variables, _, _, _) =
        parse_lp_two_phases("max x;\nx <= 2;\nx = 2;\n2 x = 4;\nx <= 2;").unwrap();
    let basis = find_basis(&variables, matrix.len());
    assert_eq!(select_leaving(&matrix, &variables, &basis, 1, true), Leaving::Row(2));
    assert_eq!(select_leaving(&matrix, &variables, &basis, 1, false), Leaving::Row(0));
}

#[test]
fn rows_without_a_positive_entry_or_with_a_negative_ratio_do_not_leave() {
    let (matrix, variables, _, _) = parse_lp_bigm("max x + y;\nx - y <= 2;").unwrap();
    let basis = find_basis(&variables, matrix.len());
    assert_eq!(select_leaving(&matrix, &variables, &basis, 2, false), Leaving::Unbounded);
    let (matrix, variables, _, _) = parse_lp_bigm("max x;\nx <= -1;\nx <= 3;").unwrap();
    let basis = find_basis(&variables, matrix.len());
    assert_eq!(select_leaving(&matrix, &variables, &basis, 1, false), Leaving::Row(1));
}

#[test]
fn scaling_divides_by_the_pivot_and_snaps_small_entries() {
    let r = row(&[(6, 1), (1, 1), (3, 1), (0, 1), (1, 2_000_000)]);
    let scaled = scale_row(&r, q(3, 1)).unwrap();
    assert_row(&scaled, &[(2, 1), (1, 3), (1, 1), (0, 1), (0, 1)]);
    let big = row(&[(i64::MAX, 1)]);
    assert!(scale_row(&big, q(1, 2)).is_none());
}

#[test]
fn other_rows_lose_the_entering_column() {
    let pivot_row = row(&[(2, 1), (1, 3), (1, 1), (0, 1), (1, 3)]);
    let other = row(&[(4, 1), (1, 1), (1, 1), (1, 1), (0, 1)]);
    let reduced = next_row_of(&other, 0, 1, 2, &pivot_row).unwrap();
    assert_row(&reduced, &[(2, 1), (2, 3), (0, 1), (1, 1), (-1, 3)]);
    // the pivot row itself is taken as scaled
    let own = next_row_of(&other, 1, 1, 2, &pivot_row).unwrap();
    assert_row(&own, &[(2, 1), (1, 3), (1, 1), (0, 1), (1, 3)]);
    // a row with a negligible entry in the column stays
    let flat = row(&[(4, 1), (1, 1), (1, 1_000_000), (1, 1), (0, 1)]);
    let kept = next_row_of(&flat, 0, 1, 2, &pivot_row).unwrap();
    assert_row(&kept, &[(4, 1), (1, 1), (1, 1_000_000), (1, 1), (0, 1)]);
    let huge = row(&[(i64::MAX, 1), (1, 1), (-2, 1), (1, 1), (0, 1)]);
    let wide = row(&[(i64::MAX, 1), (1, 3), (1, 1), (0, 1), (1, 3)]);
    assert!(next_row_of(&huge, 0, 1, 2, &wide).is_none());
}

#[test]
fn one_step_makes_one_pivot() {
    let (mut matrix, mut variables, _, _) = parse_lp_bigm(TWO_ROWS).unwrap();
    let mut basis = find_basis(&variables, matrix.len());
    assert_eq!(basis, vec![2, 3]);
    assert_eq!(pivot_step(&mut matrix, &mut variables, &mut basis, false, false), Step::Pivoted);
    assert_eq!(basis, vec![2, 1]);
    assert_row(&matrix[0], &[(2, 1), (2, 3), (0, 1), (1, 1), (-1, 3)]);
    assert_row(&matrix[1], &[(2, 1), (1, 3), (1, 1), (0, 1), (1, 3)]);
    assert!(variables[1].in_base && variables[1].row == 1);
    assert!(!variables[3].in_base && variables[3].row == usize::MAX);
    assert_eq!(pivot_step(&mut matrix, &mut variables, &mut basis, false, false), Step::Pivoted);
    assert_eq!(basis, vec![0, 1]);
    assert_row(&matrix[0], &[(3, 1), (1, 1), (0, 1), (3, 2), (-1, 2)]);
    assert_row(&matrix[1], &[(1, 1), (0, 1), (1, 1), (-1, 2), (1, 2)]);
    assert_eq!(pivot_step(&mut matrix, &mut variables, &mut basis, false, false), Step::Optimal);
    assert_eq!(basis, vec![0, 1]);
    assert_row(&matrix[0], &[(3, 1), (1, 1), (0, 1), (3, 2), (-1, 2)]);
}

#[test]
fn the_last_column_can_enter() {
    // the optimum needs the slack of the last row to enter the basis
    let (mut matrix, mut variables, _, _) =
        parse_lp_bigm("max x1 + x2;\n2 x1 + x2 <= 4;\nx1 <= 1.5;").unwrap();
    let mut basis = find_basis(&variables, matrix.len());
    assert_eq!(pivot_step(&mut matrix, &mut variables, &mut basis, false, false), Step::Pivoted);
    assert_eq!(pivot_step(&mut matrix, &mut variables, &mut basis, false, false), Step::Pivoted);
    assert_eq!(basis, vec![1, 0]);
    assert_eq!(pivot_step(&mut matrix, &mut variables, &mut basis, false, false), Step::Pivoted);
    assert_eq!(basis, vec![1, 3]);
    assert_eq!(pivot_step(&mut matrix, &mut variables, &mut basis, false, false), Step::Optimal);
}

#[test]
fn a_step_reports_an_unbounded_direction_and_changes_nothing() {
    let (mut matrix, mut variables, _, _) = parse_lp_bigm("max x + y;\nx - y <= 2;").unwrap();
    let mut basis = find_basis(&variables, matrix.len());
    assert_eq!(pivot_step(&mut matrix, &mut variables, &mut basis, false, false), Step::Pivoted);
    assert_eq!(pivot_step(&mut matrix, &mut variables, &mut basis, false, false), Step::Unbounded);
    assert_eq!(basis, vec![0]);
    assert_row(&matrix[0], &[(2, 1), (1, 1), (-1, 1), (1, 1)]);
}

#[test]
fn a_step_reports_values_out_of_range() {
    let (mut matrix, mut variables, _, _) =
        parse_lp_bigm("max x;\nx <= 9000000000000000000;\ny - 3 x <= 9000000000000000000;")
            .unwrap();
    let mut basis = find_basis(&variables, matrix.len());
    assert_eq!(basis, vec![1, 3]);
    assert_eq!(pivot_step(&mut matrix, &mut variables, &mut basis, false, false), Step::Overflow);
    assert_eq!(basis, vec![1, 3]);
    assert_row(&matrix[0], &[(9000000000000000000, 1), (1, 1), (1, 1), (0, 1), (0, 1)]);
    assert_row(&matrix[1], &[(9000000000000000000, 1), (-3, 1), (0, 1), (1, 1), (1, 1)]);
    assert!(variables[1].in_base && !variables[0].in_base);
}

#[test]
fn tolerance_is_one_millionth() {
    assert!(same(tolerance(), 1, 1_000_000));
    assert!(is_negligible(q(1, 1_000_000)));
    assert!(is_negligible(q(-1, 1_000_000)));
    assert!(is_negligible(q(0, 1)));
    assert!(!is_negligible(q(2, 1_000_000)));
    assert!(!is_negligible(q(-1, 999_999)));
}
