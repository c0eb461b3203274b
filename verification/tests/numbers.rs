use simplexe::rational::{gcd_u128, Rational};

fn q(n: i64, d: i64) -> Rational {
    Rational::new(n, d).unwrap()
}

fn same(a: Rational, n: i64, d: i64) -> bool {
    a.numer() == n && a.denom() == d
}

#[test]
fn fractions_are_reduced_and_carry_the_sign_above() {
    assert!(same(q(6, 4), 3, 2));
    assert!(same(q(6, -4), -3, 2));
    assert!(same(q(-6, -4), 3, 2));
    assert!(same(q(0, 5), 0, 1));
    assert!(same(q(0, -5), 0, 1));
    assert!(same(q(7, 1), 7, 1));
    assert!(Rational::new(1, 0).is_none());
    assert!(Rational::new(i64::MIN, 1).is_none());
    assert!(Rational::new(1, i64::MIN).is_none());
    assert!(same(q(i64::MIN, 2), i64::MIN / 2, 1));
    assert!(same(q(i64::MAX, i64::MAX), 1, 1));
}

#[test]
fn whole_numbers() {
    assert!(same(Rational::zero(), 0, 1));
    assert!(same(Rational::one(), 1, 1));
    assert!(same(Rational::from_int(-12).unwrap(), -12, 1));
    assert!(same(Rational::from_int(i64::MAX).unwrap(), i64::MAX, 1));
    assert!(Rational::from_int(i64::MIN).is_none());
}

#[test]
fn greatest_common_divisor() {
    assert_eq!(gcd_u128(12, 18), 6);
    assert_eq!(gcd_u128(18, 12), 6);
    assert_eq!(gcd_u128(0, 7), 7);
    assert_eq!(gcd_u128(7, 0), 7);
    assert_eq!(gcd_u128(0, 0), 0);
    assert_eq!(gcd_u128(17, 5), 1);
    assert_eq!(gcd_u128(1 << 100, 1 << 90), 1 << 90);
}

#[test]
fn sums_and_differences() {
    assert!(same(q(1, 2).add(q(1, 3)).unwrap(), 5, 6));
    assert!(same(q(1, 2).add(q(1, 2)).unwrap(), 1, 1));
    assert!(same(q(1, 2).add(q(-1, 2)).unwrap(), 0, 1));
    assert!(same(q(1, 2).sub(q(1, 3)).unwrap(), 1, 6));
    assert!(same(q(1, 3).sub(q(1, 2)).unwrap(), -1, 6));
    assert!(same(q(3, 4).sub(q(3, 4)).unwrap(), 0, 1));
    assert!(q(i64::MAX, 1).add(q(1, 1)).is_none());
    assert!(q(-i64::MAX, 1).sub(q(1, 1)).is_none());
    assert!(q(1, i64::MAX).add(q(1, 2)).is_none());
    assert!(same(q(i64::MAX, 1).sub(q(1, 1)).unwrap(), i64::MAX - 1, 1));
}

#[test]
fn products_and_quotients() {
    assert!(same(q(2, 3).mul(q(3, 4)).unwrap(), 1, 2));
    assert!(same(q(-2, 3).mul(q(3, 4)).unwrap(), -1, 2));
    assert!(same(q(5, 7).mul(q(0, 1)).unwrap(), 0, 1));
    assert!(same(q(2, 3).div(q(4, 9)).unwrap(), 3, 2));
    assert!(same(q(2, 3).div(q(-4, 9)).unwrap(), -3, 2));
    assert!(same(q(0, 1).div(q(-4, 9)).unwrap(), 0, 1));
    assert!(q(1, 2).div(q(0, 1)).is_none());
    assert!(q(i64::MAX, 1).mul(q(2, 1)).is_none());
    assert!(q(i64::MAX, 1).div(q(1, 2)).is_none());
    // the product is reduced before it is stored
    assert!(same(q(i64::MAX, 2).mul(q(2, i64::MAX)).unwrap(), 1, 1));
}

#[test]
fn opposite_and_absolute_value() {
    assert!(same(q(3, 5).neg(), -3, 5));
    assert!(same(q(-3, 5).neg(), 3, 5));
    assert!(same(q(0, 1).neg(), 0, 1));
    assert!(same(q(-3, 5).abs(), 3, 5));
    assert!(same(q(3, 5).abs(), 3, 5));
}

#[test]
fn order() {
    assert!(q(1, 3).lt(q(1, 2)));
    assert!(!q(1, 2).lt(q(1, 3)));
    assert!(!q(1, 2).lt(q(1, 2)));
    assert!(q(-1, 2).lt(q(-1, 3)));
    assert!(q(1, 2).le(q(1, 2)));
    assert!(q(1, 3).le(q(1, 2)));
    assert!(!q(1, 2).le(q(1, 3)));
    assert!(q(2, 4).same(q(1, 2)));
    assert!(!q(2, 4).same(q(1, 3)));
    assert!(q(-i64::MAX, 1).lt(q(i64::MAX, 1)));
    assert!(q(1, i64::MAX).lt(q(2, i64::MAX)));
}

#[test]
fn signs() {
    assert!(q(0, 3).is_zero());
    assert!(!q(1, 3).is_zero());
    assert!(q(1, 3).is_positive());
    assert!(!q(0, 1).is_positive());
    assert!(q(-1, 3).is_negative());
    assert!(!q(0, 1).is_negative());
}

#[test]
fn floor_and_ceiling() {
    assert_eq!(q(3, 2).floor(), 1);
    assert_eq!(q(3, 2).ceil(), 2);
    assert_eq!(q(-3, 2).floor(), -2);
    assert_eq!(q(-3, 2).ceil(), -1);
    assert_eq!(q(4, 1).floor(), 4);
    assert_eq!(q(4, 1).ceil(), 4);
    assert_eq!(q(-4, 1).floor(), -4);
    assert_eq!(q(-4, 1).ceil(), -4);
    assert_eq!(q(0, 1).floor(), 0);
    assert_eq!(q(1, 3).floor(), 0);
    assert_eq!(q(-1, 3).floor(), -1);
    assert_eq!(q(-1, 3).ceil(), 0);
    assert_eq!(q(-i64::MAX, 1).floor(), -i64::MAX);
    assert_eq!(q(-i64::MAX, 2).floor(), -(i64::MAX / 2) - 1);
    assert_eq!(q(i64::MAX, 2).ceil(), i64::MAX / 2 + 1);
}

#[test]
fn whole_or_not() {
    assert!(q(4, 2).is_integer());
    assert!(q(-4, 2).is_integer());
    assert!(q(0, 1).is_integer());
    assert!(!q(1, 2).is_integer());
    assert!(!q(-1, 2).is_integer());
}
