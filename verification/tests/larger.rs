use simplexe::driver::{solve_system, solve_system_two_phases};
use simplexe::error::LpError;
use simplexe::loader::{parse_lp_bigm, parse_lp_two_phases};
use simplexe::rational::Rational;
use simplexe::search::branch_and_bound;

fn penalty(text: &str) -> Result<(Vec<(Vec<u8>, Rational)>, Rational), LpError> {
    let (mut matrix, mut variables, sense, names) = parse_lp_bigm(text).unwrap();
    solve_system(&mut matrix, &mut variables, &names, sense, 10_000)
}

fn two_phase(text: &str) -> Result<(Vec<(Vec<u8>, Rational)>, Rational), LpError> {
    let (mut matrix, mut variables, sense, names, costs) = parse_lp_two_phases(text).unwrap();
    solve_system_two_phases(&mut matrix, &mut variables, &names, &costs, sense, 10_000)
}

fn same(a: Rational, n: i64, d: i64) -> bool {
    a.numer() == n && a.denom() == d
}

const DIET: &str = "min 0.6 corn + 0.35 wheat + 0.25 oats + 0.9 soy;
0.09 corn + 0.12 wheat + 0.11 oats + 0.45 soy >= 22.5;
0.02 corn + 0.03 wheat + 0.05 oats + 0.01 soy <= 4;
0.7 corn + 0.6 wheat + 0.55 oats + 0.3 soy >= 50;
corn + wheat + oats + soy = 100;
soy <= 40;";

const PLAN: &str = "max 12 a + 9 b + 14 c + 7 d + 10 e;
3 a + 2 b + 4 c + d + 2 e <= 60;
a + 3 b + 2 c + 2 d + e <= 45;
2 a + b + 3 c + 3 d + 4 e <= 80;
a + b + c + d + e >= 10;
a - b <= 5;
c + d >= 4;
e <= 12;";

fn assert_values(entries: &[(Vec<u8>, Rational)], expected: &[(&str, i64, i64)]) {
    assert_eq!(entries.len(), expected.len());
    for (entry, want) in entries.iter().zip(expected.iter()) {
        assert_eq!(entry.0.as_slice(), want.0.as_bytes());
        assert!(same(entry.1, want.1, want.2), "{:?} for {}", entry.1, want.0);
    }
}

#[test]
fn a_diet_with_decimal_coefficients() {
    let expected = [("corn", 0, 1), ("wheat", 2350, 39), ("oats", 100, 13), ("soy", 1250, 39)];
    let (entries, z) = two_phase(DIET).unwrap();
    assert_values(&entries, &expected);
    assert!(same(z, 4045, 78));
    let total = entries.iter().fold(Rational::zero(), |acc, e| acc.add(e.1).unwrap());
    assert!(same(total, 100, 1));
    let (entries, z) = penalty(DIET).unwrap();
    assert_values(&entries, &expected);
    assert!(same(z, 4045, 78));
}

#[test]
fn a_production_plan() {
    let expected = [("a", 215, 24), ("b", 95, 24), ("c", 0, 1), ("d", 185, 24), ("e", 35, 4)];
    let (entries, z) = two_phase(PLAN).unwrap();
    assert_values(&entries, &expected);
    assert!(same(z, 3415, 12));
    let (entries, z) = penalty(PLAN).unwrap();
    assert_values(&entries, &expected);
    assert!(same(z, 3415, 12));
}

#[test]
fn a_production_plan_in_whole_numbers() {
    let (entries, _, z) = branch_and_bound(PLAN, 10_000, 10_000).unwrap();
    assert_values(&entries, &[("a", 9, 1), ("b", 4, 1), ("c", 0, 1), ("d", 7, 1), ("e", 9, 1)]);
    assert!(same(z, 283, 1));
}
