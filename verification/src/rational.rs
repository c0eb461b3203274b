//! Exact rational numbers on 64-bit integers.
//!
//! A [`Rational`] is a fraction with a positive denominator whose two parts fit
//! in an `i64`. Its mathematical value is a [`Ratio`]. Sums, products and
//! quotients are computed on 128-bit integers, brought to lowest terms, and
//! handed back only where the reduced fraction fits again: otherwise the
//! operation returns `None`, and its contract says so.

use vstd::arithmetic::div_mod::*;
use vstd::prelude::*;

verus! {

/// A fraction `num / den` of mathematical integers.
pub struct Ratio {
    pub num: int,
    pub den: int,
}

/// Greatest common divisor of two naturals, by Euclid's recurrence.
pub open spec fn gcd(a: nat, b: nat) -> nat
    decreases b,
{
    if b == 0 {
        a
    } else {
        gcd(b, a % b)
    }
}

/// The absolute value of an integer.
pub open spec fn magnitude(n: int) -> nat {
    if n < 0 {
        (-n) as nat
    } else {
        n as nat
    }
}

/// The fraction `n / d`, for `d > 0`, with both parts divided by their
/// greatest common divisor.
pub open spec fn ratio(n: int, d: int) -> Ratio {
    let g = gcd(magnitude(n), d as nat) as int;
    Ratio { num: if n < 0 { -((-n) / g) } else { n / g }, den: d / g }
}

/// The fraction `n / d`, for any `d` other than zero, reduced, with the sign
/// carried by the numerator.
pub open spec fn fraction(n: int, d: int) -> Ratio {
    if d > 0 {
        ratio(n, d)
    } else {
        ratio(-n, -d)
    }
}

impl Ratio {
    /// Zero.
    pub open spec fn zero() -> Ratio {
        Ratio { num: 0, den: 1 }
    }

    /// The integer `n` as a fraction.
    pub open spec fn of_int(n: int) -> Ratio {
        Ratio { num: n, den: 1 }
    }

    /// Both parts lie in the range that a [`Rational`] stores.
    pub open spec fn fits(self) -> bool {
        -(i64::MAX as int) <= self.num <= i64::MAX as int && 0 < self.den <= i64::MAX as int
    }

    /// The sum, reduced.
    pub open spec fn plus(self, o: Ratio) -> Ratio {
        ratio(self.num * o.den + o.num * self.den, self.den * o.den)
    }

    /// The difference, reduced.
    pub open spec fn minus(self, o: Ratio) -> Ratio {
        ratio(self.num * o.den - o.num * self.den, self.den * o.den)
    }

    /// The product, reduced.
    pub open spec fn times(self, o: Ratio) -> Ratio {
        ratio(self.num * o.num, self.den * o.den)
    }

    /// The quotient, reduced, for a divisor other than zero.
    pub open spec fn over(self, o: Ratio) -> Ratio {
        fraction(self.num * o.den, self.den * o.num)
    }

    /// The opposite.
    pub open spec fn negated(self) -> Ratio {
        Ratio { num: -self.num, den: self.den }
    }

    /// The absolute value.
    pub open spec fn absolute(self) -> Ratio {
        Ratio { num: magnitude(self.num) as int, den: self.den }
    }

    /// `self < o`, by cross-multiplication (both denominators positive).
    pub open spec fn lt(self, o: Ratio) -> bool {
        self.num * o.den < o.num * self.den
    }

    /// `self <= o`.
    pub open spec fn le(self, o: Ratio) -> bool {
        self.num * o.den <= o.num * self.den
    }

    /// The two fractions have the same value.
    pub open spec fn same(self, o: Ratio) -> bool {
        self.num * o.den == o.num * self.den
    }

    /// The value is zero.
    pub open spec fn is_zero(self) -> bool {
        self.num == 0
    }

    /// The value is greater than zero.
    pub open spec fn is_positive(self) -> bool {
        self.num > 0
    }

    /// The value is less than zero.
    pub open spec fn is_negative(self) -> bool {
        self.num < 0
    }

    /// The value is a whole number.
    pub open spec fn is_integer(self) -> bool {
        self.num % self.den == 0
    }

    /// The greatest integer not above the value.
    pub open spec fn floor(self) -> int {
        self.num / self.den
    }

    /// The least integer not below the value.
    pub open spec fn ceil(self) -> int {
        -((-self.num) / self.den)
    }
}

/// The greatest common divisor of two naturals, not both zero, is positive and
/// divides both.
pub proof fn lemma_gcd_divides(a: nat, b: nat)
    requires
        a > 0 || b > 0,
    ensures
        gcd(a, b) > 0,
        a % gcd(a, b) == 0,
        b % gcd(a, b) == 0,
    decreases b,
{
    if b == 0 {
        lemma_mod_self_0(a as int);
        lemma_small_mod(0, a);
    } else {
        let r = a % b;
        lemma_gcd_divides(b, r);
        let g = gcd(b, r) as int;
        let ai = a as int;
        let bi = b as int;
        let ri = r as int;
        lemma_fundamental_div_mod(ai, bi);
        lemma_fundamental_div_mod(bi, g);
        lemma_fundamental_div_mod(ri, g);
        let k = (bi / g) * (ai / bi) + ri / g;
        assert(ai == k * g) by (nonlinear_arith)
            requires
                ai == bi * (ai / bi) + ri,
                bi == g * (bi / g),
                ri == g * (ri / g),
                k == (bi / g) * (ai / bi) + ri / g,
        ;
        lemma_mod_multiples_basic(k, g);
    }
}

/// A reduced fraction has the value of the fraction it was made from, and a
/// positive denominator.
pub proof fn lemma_ratio_value(n: int, d: int)
    requires
        d > 0,
    ensures
        ratio(n, d).den > 0,
        ratio(n, d).num * d == n * ratio(n, d).den,
{
    let m = magnitude(n);
    lemma_gcd_divides(m, d as nat);
    let g = gcd(m, d as nat) as int;
    let mi = m as int;
    lemma_fundamental_div_mod(mi, g);
    lemma_fundamental_div_mod(d, g);
    let q = mi / g;
    let e = d / g;
    assert(e > 0 && q * d == mi * e) by (nonlinear_arith)
        requires
            mi == g * q,
            d == g * e,
            g > 0,
            d > 0,
    ;
    if n < 0 {
        assert((-q) * d == -(q * d)) by (nonlinear_arith);
        assert(n * e == -(mi * e)) by (nonlinear_arith)
            requires
                n == -mi,
        ;
    }
}


/// Every common divisor of two naturals, not both zero, divides their
/// greatest common divisor.
pub proof fn lemma_gcd_greatest(a: nat, b: nat, d: nat)
    requires
        a > 0 || b > 0,
        d > 0,
        a % d == 0,
        b % d == 0,
    ensures
        gcd(a, b) % d == 0,
    decreases b,
{
    if b != 0 {
        let r = a % b;
        let ai = a as int;
        let bi = b as int;
        let di = d as int;
        let ri = r as int;
        lemma_fundamental_div_mod(ai, bi);
        lemma_fundamental_div_mod(ai, di);
        lemma_fundamental_div_mod(bi, di);
        let k = ai / di - (bi / di) * (ai / bi);
        assert(ri == k * di) by (nonlinear_arith)
            requires
                ai == bi * (ai / bi) + ri,
                ai == di * (ai / di),
                bi == di * (bi / di),
                k == ai / di - (bi / di) * (ai / bi),
        ;
        lemma_mod_multiples_basic(k, di);
        lemma_gcd_greatest(b, r, d);
    }
}

/// A reduced fraction is in lowest terms: its two parts have no common
/// divisor but one.
pub proof fn lemma_ratio_lowest_terms(n: int, d: int)
    requires
        d > 0,
    ensures
        gcd(magnitude(ratio(n, d).num), ratio(n, d).den as nat) == 1,
{
    let m = magnitude(n);
    let dn = d as nat;
    lemma_gcd_divides(m, dn);
    lemma_ratio_value(n, d);
    let g = gcd(m, dn) as int;
    let mi = m as int;
    lemma_fundamental_div_mod(mi, g);
    lemma_fundamental_div_mod(d, g);
    let m1 = mi / g;
    let d1 = d / g;
    assert(m1 >= 0 && d1 > 0) by (nonlinear_arith)
        requires
            mi == g * m1,
            d == g * d1,
            g > 0,
            d > 0,
            mi >= 0,
    ;
    assert(magnitude(ratio(n, d).num) == m1);
    lemma_gcd_divides(m1 as nat, d1 as nat);
    let h = gcd(m1 as nat, d1 as nat) as int;
    lemma_fundamental_div_mod(m1, h);
    lemma_fundamental_div_mod(d1, h);
    let gh = g * h;
    assert(gh > 0 && gh >= g && mi == (m1 / h) * gh && d == (d1 / h) * gh) by (nonlinear_arith)
        requires
            gh == g * h,
            g > 0,
            h > 0,
            mi == g * m1,
            d == g * d1,
            m1 == h * (m1 / h),
            d1 == h * (d1 / h),
    ;
    lemma_mod_multiples_basic(m1 / h, gh);
    lemma_mod_multiples_basic(d1 / h, gh);
    lemma_gcd_greatest(m, dn, gh as nat);
    if g < gh {
        lemma_small_mod(g as nat, gh as nat);
    }
    assert(h == 1) by (nonlinear_arith)
        requires
            gh == g * h,
            g == gh,
            g > 0,
    ;
}

/// A whole number is its own reduced fraction.
pub proof fn lemma_ratio_of_int(n: int)
    ensures
        ratio(n, 1) == Ratio::of_int(n),
{
    reveal_with_fuel(gcd, 3);
    let m = magnitude(n);
    assert(m % 1 == 0);
    assert(gcd(m, 1) == 1);
    assert(n / 1 == n);
    assert((-n) / 1 == -n);
    assert(1int / 1 == 1);
}

/// One over a positive whole number is its own reduced fraction.
pub proof fn lemma_ratio_unit(d: int)
    requires
        d > 0,
    ensures
        ratio(1, d) == (Ratio { num: 1, den: d }),
{
    reveal_with_fuel(gcd, 4);
    let dn = d as nat;
    if d == 1 {
        assert(1nat % 1 == 0);
    } else {
        lemma_small_mod(1, dn);
        assert(dn % 1 == 0);
    }
    assert(gcd(1, dn) == 1);
    assert(d / 1 == d);
    assert(1int / 1 == 1);
}

/// Of two fractions with positive denominators, one is below the other or
/// the other is at most the one.
pub proof fn lemma_order_total(a: Ratio, b: Ratio)
    ensures
        a.lt(b) || b.le(a),
        !(a.lt(b) && b.le(a)),
        a.same(b) <==> a.le(b) && b.le(a),
{
}

/// The order of fractions with positive denominators is transitive.
pub proof fn lemma_order_transitive(a: Ratio, b: Ratio, c: Ratio)
    requires
        a.den > 0,
        b.den > 0,
        c.den > 0,
    ensures
        a.le(b) && b.le(c) ==> a.le(c),
        a.lt(b) && b.le(c) ==> a.lt(c),
        a.le(b) && b.lt(c) ==> a.lt(c),
{
    let x = a.num * b.den;
    let y = b.num * a.den;
    let u = b.num * c.den;
    let v = c.num * b.den;
    assert(x * c.den == (a.num * c.den) * b.den) by (nonlinear_arith)
        requires
            x == a.num * b.den,
    ;
    assert(y * c.den == u * a.den) by (nonlinear_arith)
        requires
            y == b.num * a.den,
            u == b.num * c.den,
    ;
    assert(v * a.den == (c.num * a.den) * b.den) by (nonlinear_arith)
        requires
            v == c.num * b.den,
    ;
    if a.le(b) && b.le(c) {
        assert(x * c.den <= y * c.den) by (nonlinear_arith)
            requires
                x <= y,
                c.den > 0,
        ;
        assert(u * a.den <= v * a.den) by (nonlinear_arith)
            requires
                u <= v,
                a.den > 0,
        ;
        assert(a.num * c.den <= c.num * a.den) by (nonlinear_arith)
            requires
                (a.num * c.den) * b.den <= (c.num * a.den) * b.den,
                b.den > 0,
        ;
    }
    if a.lt(b) && b.le(c) {
        assert(x * c.den < y * c.den) by (nonlinear_arith)
            requires
                x < y,
                c.den > 0,
        ;
        assert(u * a.den <= v * a.den) by (nonlinear_arith)
            requires
                u <= v,
                a.den > 0,
        ;
        assert(a.num * c.den < c.num * a.den) by (nonlinear_arith)
            requires
                (a.num * c.den) * b.den < (c.num * a.den) * b.den,
                b.den > 0,
        ;
    }
    if a.le(b) && b.lt(c) {
        assert(x * c.den <= y * c.den) by (nonlinear_arith)
            requires
                x <= y,
                c.den > 0,
        ;
        assert(u * a.den < v * a.den) by (nonlinear_arith)
            requires
                u < v,
                a.den > 0,
        ;
        assert(a.num * c.den < c.num * a.den) by (nonlinear_arith)
            requires
                (a.num * c.den) * b.den < (c.num * a.den) * b.den,
                b.den > 0,
        ;
    }
}

/// An exact rational number: a fraction of two `i64` with a positive
/// denominator.
#[derive(Clone, Copy, Debug)]
pub struct Rational {
    num: i64,
    den: i64,
}

impl View for Rational {
    type V = Ratio;

    /// The fraction that the number holds. Its denominator is positive.
    closed spec fn view(&self) -> Ratio {
        Ratio { num: self.num as int, den: if self.den > 0 { self.den as int } else { 1 } }
    }
}

/// The view of every rational has a positive denominator.
pub broadcast proof fn lemma_view_den_positive(r: Rational)
    ensures
        (#[trigger] r@).den > 0,
{
}

proof fn lemma_product_bound(x: int, y: int)
    requires
        -0x7fff_ffff_ffff_ffff <= x <= 0x7fff_ffff_ffff_ffff,
        -0x7fff_ffff_ffff_ffff <= y <= 0x7fff_ffff_ffff_ffff,
    ensures
        -0x4000_0000_0000_0000_0000_0000_0000_0000 < x * y
            < 0x4000_0000_0000_0000_0000_0000_0000_0000,
{
    assert(-0x4000_0000_0000_0000_0000_0000_0000_0000 < x * y
        < 0x4000_0000_0000_0000_0000_0000_0000_0000) by (nonlinear_arith)
        requires
            -0x7fff_ffff_ffff_ffff <= x <= 0x7fff_ffff_ffff_ffff,
            -0x7fff_ffff_ffff_ffff <= y <= 0x7fff_ffff_ffff_ffff,
    ;
}

/// Computes the greatest common divisor of `a` and `b`.
pub fn gcd_u128(a: u128, b: u128) -> (g: u128)
    ensures
        g == gcd(a as nat, b as nat),
{
    let mut x: u128 = a;
    let mut y: u128 = b;
    while y != 0
        invariant
            gcd(x as nat, y as nat) == gcd(a as nat, b as nat),
        decreases y,
    {
        let r: u128 = x % y;
        x = y;
        y = r;
    }
    x
}

/// Reduces `n / d` and stores it, where the reduced fraction fits.
fn reduce(n: i128, d: i128) -> (r: Option<Rational>)
    requires
        d > 0,
        n > i128::MIN,
    ensures
        match r {
            Some(x) => x@ == ratio(n as int, d as int) && x@.fits(),
            None => !ratio(n as int, d as int).fits(),
        },
{
    let m: u128 = if n < 0 { (-n) as u128 } else { n as u128 };
    let du: u128 = d as u128;
    let g: u128 = gcd_u128(m, du);
    proof {
        lemma_gcd_divides(m as nat, du as nat);
        lemma_ratio_value(n as int, d as int);
    }
    let mq: u128 = m / g;
    let dq: u128 = du / g;
    if mq > 0x7fff_ffff_ffff_ffff || dq > 0x7fff_ffff_ffff_ffff {
        None
    } else {
        let num: i64 = if n < 0 { -(mq as i64) } else { mq as i64 };
        Some(Rational { num, den: dq as i64 })
    }
}

impl Rational {
    #[verifier::type_invariant]
    spec fn well_formed(self) -> bool {
        self.den > 0 && self.num > i64::MIN
    }

    /// Zero.
    pub fn zero() -> (r: Rational)
        ensures
            r@ == Ratio::zero(),
            r@.fits(),
    {
        Rational { num: 0, den: 1 }
    }

    /// One.
    pub fn one() -> (r: Rational)
        ensures
            r@ == Ratio::of_int(1),
            r@.fits(),
    {
        Rational { num: 1, den: 1 }
    }

    /// The integer `n`, unless it is `i64::MIN`.
    pub fn from_int(n: i64) -> (r: Option<Rational>)
        ensures
            match r {
                Some(x) => x@ == Ratio::of_int(n as int) && x@.fits(),
                None => !Ratio::of_int(n as int).fits(),
            },
    {
        if n == i64::MIN {
            None
        } else {
            Some(Rational { num: n, den: 1 })
        }
    }

    /// The fraction `num / den` in lowest terms: `None` where `den` is zero or
    /// the reduced fraction does not fit.
    pub fn new(num: i64, den: i64) -> (r: Option<Rational>)
        ensures
            match r {
                Some(x) => den != 0 && x@ == fraction(num as int, den as int) && x@.fits(),
                None => den == 0 || !fraction(num as int, den as int).fits(),
            },
    {
        if den == 0 {
            None
        } else if den > 0 {
            reduce(num as i128, den as i128)
        } else {
            reduce(-(num as i128), -(den as i128))
        }
    }

    /// The numerator.
    pub fn numer(self) -> (n: i64)
        ensures
            n == self@.num,
    {
        self.num
    }

    /// The denominator, which is positive.
    pub fn denom(self) -> (d: i64)
        ensures
            d == self@.den,
            d > 0,
            self@.fits(),
    {
        proof {
            use_type_invariant(&self);
        }
        self.den
    }

    /// The sum, where it fits.
    pub fn add(self, o: Rational) -> (r: Option<Rational>)
        ensures
            match r {
                Some(x) => x@ == self@.plus(o@) && x@.fits(),
                None => !self@.plus(o@).fits(),
            },
    {
        proof {
            use_type_invariant(&self);
            use_type_invariant(&o);
            lemma_product_bound(self.num as int, o.den as int);
            lemma_product_bound(o.num as int, self.den as int);
            lemma_product_bound(self.den as int, o.den as int);
            assert(self.den * o.den > 0) by (nonlinear_arith)
                requires
                    self.den > 0,
                    o.den > 0,
            ;
        }
        let n: i128 = (self.num as i128) * (o.den as i128) + (o.num as i128) * (self.den as i128);
        let d: i128 = (self.den as i128) * (o.den as i128);
        reduce(n, d)
    }

    /// The difference, where it fits.
    pub fn sub(self, o: Rational) -> (r: Option<Rational>)
        ensures
            match r {
                Some(x) => x@ == self@.minus(o@) && x@.fits(),
                None => !self@.minus(o@).fits(),
            },
    {
        proof {
            use_type_invariant(&self);
            use_type_invariant(&o);
            lemma_product_bound(self.num as int, o.den as int);
            lemma_product_bound(o.num as int, self.den as int);
            lemma_product_bound(self.den as int, o.den as int);
            assert(self.den * o.den > 0) by (nonlinear_arith)
                requires
                    self.den > 0,
                    o.den > 0,
            ;
        }
        let n: i128 = (self.num as i128) * (o.den as i128) - (o.num as i128) * (self.den as i128);
        let d: i128 = (self.den as i128) * (o.den as i128);
        reduce(n, d)
    }

    /// The product, where it fits.
    pub fn mul(self, o: Rational) -> (r: Option<Rational>)
        ensures
            match r {
                Some(x) => x@ == self@.times(o@) && x@.fits(),
                None => !self@.times(o@).fits(),
            },
    {
        proof {
            use_type_invariant(&self);
            use_type_invariant(&o);
            lemma_product_bound(self.num as int, o.num as int);
            lemma_product_bound(self.den as int, o.den as int);
            assert(self.den * o.den > 0) by (nonlinear_arith)
                requires
                    self.den > 0,
                    o.den > 0,
            ;
        }
        let n: i128 = (self.num as i128) * (o.num as i128);
        let d: i128 = (self.den as i128) * (o.den as i128);
        reduce(n, d)
    }

    /// The quotient: `None` where the divisor is zero or the quotient does not
    /// fit.
    pub fn div(self, o: Rational) -> (r: Option<Rational>)
        ensures
            match r {
                Some(x) => !o@.is_zero() && x@ == self@.over(o@) && x@.fits(),
                None => o@.is_zero() || !self@.over(o@).fits(),
            },
    {
        proof {
            use_type_invariant(&self);
            use_type_invariant(&o);
            lemma_product_bound(self.num as int, o.den as int);
            lemma_product_bound(self.den as int, o.num as int);
        }
        if o.num == 0 {
            return None;
        }
        let n: i128 = (self.num as i128) * (o.den as i128);
        let d: i128 = (self.den as i128) * (o.num as i128);
        if o.num > 0 {
            proof {
                assert(self.den * o.num > 0) by (nonlinear_arith)
                    requires
                        self.den > 0,
                        o.num > 0,
                ;
            }
            reduce(n, d)
        } else {
            proof {
                assert(self.den * o.num < 0) by (nonlinear_arith)
                    requires
                        self.den > 0,
                        o.num < 0,
                ;
            }
            reduce(-n, -d)
        }
    }

    /// The opposite.
    pub fn neg(self) -> (r: Rational)
        ensures
            r@ == self@.negated(),
            r@.fits(),
    {
        proof {
            use_type_invariant(&self);
        }
        Rational { num: -self.num, den: self.den }
    }

    /// The absolute value.
    pub fn abs(self) -> (r: Rational)
        ensures
            r@ == self@.absolute(),
            r@.fits(),
    {
        proof {
            use_type_invariant(&self);
        }
        if self.num < 0 {
            Rational { num: -self.num, den: self.den }
        } else {
            self
        }
    }

    /// `self < o`.
    pub fn lt(self, o: Rational) -> (b: bool)
        ensures
            b == self@.lt(o@),
    {
        proof {
            use_type_invariant(&self);
            use_type_invariant(&o);
            lemma_product_bound(self.num as int, o.den as int);
            lemma_product_bound(o.num as int, self.den as int);
        }
        (self.num as i128) * (o.den as i128) < (o.num as i128) * (self.den as i128)
    }

    /// `self <= o`.
    pub fn le(self, o: Rational) -> (b: bool)
        ensures
            b == self@.le(o@),
    {
        proof {
            use_type_invariant(&self);
            use_type_invariant(&o);
            lemma_product_bound(self.num as int, o.den as int);
            lemma_product_bound(o.num as int, self.den as int);
        }
        (self.num as i128) * (o.den as i128) <= (o.num as i128) * (self.den as i128)
    }

    /// The two numbers have the same value.
    pub fn same(self, o: Rational) -> (b: bool)
        ensures
            b == self@.same(o@),
    {
        proof {
            use_type_invariant(&self);
            use_type_invariant(&o);
            lemma_product_bound(self.num as int, o.den as int);
            lemma_product_bound(o.num as int, self.den as int);
        }
        (self.num as i128) * (o.den as i128) == (o.num as i128) * (self.den as i128)
    }

    /// The value is zero.
    pub fn is_zero(self) -> (b: bool)
        ensures
            b == self@.is_zero(),
    {
        self.num == 0
    }

    /// The value is greater than zero.
    pub fn is_positive(self) -> (b: bool)
        ensures
            b == self@.is_positive(),
    {
        self.num > 0
    }

    /// The value is less than zero.
    pub fn is_negative(self) -> (b: bool)
        ensures
            b == self@.is_negative(),
    {
        self.num < 0
    }

    /// The greatest integer not above the value.
    pub fn floor(self) -> (f: i64)
        ensures
            f == self@.floor(),
            f > i64::MIN,
    {
        proof {
            use_type_invariant(&self);
        }
        if self.num >= 0 {
            self.num / self.den
        } else {
            let m: i64 = -self.num;
            let q: i64 = m / self.den;
            let r: i64 = m % self.den;
            proof {
                lemma_fundamental_div_mod(m as int, self.den as int);
            }
            if r == 0 {
                proof {
                    assert(self.num == (-q) * self.den + 0) by (nonlinear_arith)
                        requires
                            -self.num == self.den * q,
                    ;
                    lemma_fundamental_div_mod_converse(
                        self.num as int,
                        self.den as int,
                        -(q as int),
                        0,
                    );
                }
                -q
            } else {
                proof {
                    assert(q < i64::MAX) by (nonlinear_arith)
                        requires
                            m == self.den * q + r,
                            0 < r < self.den,
                            0 <= q,
                            m <= i64::MAX,
                    ;
                    assert(self.num == (-q - 1) * self.den + (self.den - r)) by (nonlinear_arith)
                        requires
                            -self.num == self.den * q + r,
                    ;
                    lemma_fundamental_div_mod_converse(
                        self.num as int,
                        self.den as int,
                        -(q as int) - 1,
                        self.den - r,
                    );
                }
                -q - 1
            }
        }
    }

    /// The least integer not below the value.
    pub fn ceil(self) -> (c: i64)
        ensures
            c == self@.ceil(),
            c > i64::MIN,
    {
        let f: i64 = self.neg().floor();
        proof {
            use_type_invariant(&self);
            lemma_fundamental_div_mod(-(self.num as int), self.den as int);
            assert(-(i64::MAX as int) <= f <= i64::MAX as int) by (nonlinear_arith)
                requires
                    -(self.num as int) == self.den * f + (-(self.num as int)) % (self.den as int),
                    0 <= (-(self.num as int)) % (self.den as int) < self.den,
                    self.den > 0,
                    -(i64::MAX as int) <= self.num <= i64::MAX as int,
            ;
        }
        -f
    }

    /// The value is a whole number.
    pub fn is_integer(self) -> (b: bool)
        ensures
            b == self@.is_integer(),
    {
        proof {
            use_type_invariant(&self);
        }
        if self.num >= 0 {
            self.num % self.den == 0
        } else {
            let m: i64 = -self.num;
            let r: i64 = m % self.den;
            proof {
                lemma_fundamental_div_mod(m as int, self.den as int);
                lemma_fundamental_div_mod(self.num as int, self.den as int);
                let q = (m as int) / (self.den as int);
                let q2 = (self.num as int) / (self.den as int);
                let r2 = (self.num as int) % (self.den as int);
                if r == 0 {
                    assert(self.num == (-q) * self.den + 0) by (nonlinear_arith)
                        requires
                            -self.num == self.den * q,
                    ;
                    lemma_fundamental_div_mod_converse(self.num as int, self.den as int, -q, 0);
                } else if r2 == 0 {
                    assert(m == (-q2) * self.den + 0) by (nonlinear_arith)
                        requires
                            self.num == self.den * q2,
                            m == -self.num,
                    ;
                    lemma_fundamental_div_mod_converse(m as int, self.den as int, -q2, 0);
                }
            }
            r == 0
        }
    }
}

} // verus!
