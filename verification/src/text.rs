//! The problem language: from the bytes of a problem text to its statements.
//!
//! A text is an objective followed by constraints, each closed by `;`:
//!
//! ```text
//! max 2 x1 + 3 x2;
//! x1 + x2 <= 4;
//! x1 + 3 x2 <= 6;
//! ```
//!
//! The objective is `max` or `min` and a sum of terms. A constraint is a sum of
//! terms, one of `<=`, `>=` and `=`, and a number. A term is an optional sign,
//! an optional numeral (one where absent) and a name; every term but the first
//! of a sum needs its sign. A numeral is decimal digits with an optional
//! fractional part. A name starts with a letter or `_` and goes on with
//! letters, digits and `_`. Spaces, tabs and line ends separate.
//!
//! The grammar is given as functions of the byte sequence, and each reader is
//! proved to compute its function.

use crate::error::{ParseError, ParseErrorKind};
use crate::rational::{fraction, Ratio, Rational};
use crate::tableau::Sense;
use vstd::prelude::*;

verus! {

/// The byte is a space, a tab or a line end.
pub open spec fn is_space(b: u8) -> bool {
    b == 32 || b == 9 || b == 10 || b == 13
}

/// The byte is a decimal digit.
pub open spec fn is_digit(b: u8) -> bool {
    48 <= b <= 57
}

/// The byte is a letter or `_`.
pub open spec fn is_letter(b: u8) -> bool {
    (65 <= b <= 90) || (97 <= b <= 122) || b == 95
}

/// The first position from `i` on that holds no space.
pub open spec fn skip_spaces(s: Seq<u8>, i: int) -> int
    decreases s.len() - i,
{
    if 0 <= i < s.len() && is_space(s[i]) {
        skip_spaces(s, i + 1)
    } else {
        i
    }
}

/// The first position from `i` on that holds neither a letter nor a digit.
pub open spec fn name_end(s: Seq<u8>, i: int) -> int
    decreases s.len() - i,
{
    if 0 <= i < s.len() && (is_letter(s[i]) || is_digit(s[i])) {
        name_end(s, i + 1)
    } else {
        i
    }
}

/// A numeral as read: its digits without the point as a number, the power of
/// ten that its fractional digits stand for, and the position after it.
pub struct Scan {
    pub mantissa: int,
    pub scale: int,
    pub end: int,
}

/// Reads digits from `i` on. Each digit multiplies the number so far by ten
/// and adds itself; in a fractional part it also multiplies the scale by ten.
/// `None` once either passes `i64::MAX`.
pub open spec fn scan_digits(s: Seq<u8>, i: int, mantissa: int, scale: int, frac: bool) -> Option<
    Scan,
>
    decreases s.len() - i,
{
    if 0 <= i < s.len() && is_digit(s[i]) {
        let m = mantissa * 10 + (s[i] - 48);
        let sc = if frac {
            scale * 10
        } else {
            scale
        };
        if m > i64::MAX || sc > i64::MAX {
            None
        } else {
            scan_digits(s, i + 1, m, sc, frac)
        }
    } else {
        Some(Scan { mantissa, scale, end: i })
    }
}

/// Reads a numeral at `i`: digits, and a point with more digits where a digit
/// follows the point.
pub open spec fn scan_numeral(s: Seq<u8>, i: int) -> Option<Scan> {
    match scan_digits(s, i, 0, 1, false) {
        None => None,
        Some(a) => if a.end + 1 < s.len() && s[a.end] == 46 && is_digit(s[a.end + 1]) {
            scan_digits(s, a.end + 1, a.mantissa, 1, true)
        } else {
            Some(a)
        },
    }
}

/// Digits are read forward and within the text.
pub proof fn lemma_scan_digits_range(s: Seq<u8>, i: int, mantissa: int, scale: int, frac: bool)
    requires
        0 <= i <= s.len(),
    ensures
        match scan_digits(s, i, mantissa, scale, frac) {
            Some(a) => i <= a.end <= s.len() && (is_digit(s[i]) && i < s.len() ==> i < a.end),
            None => true,
        },
    decreases s.len() - i,
{
    if i < s.len() && is_digit(s[i]) {
        let m = mantissa * 10 + (s[i] - 48);
        let sc = if frac {
            scale * 10
        } else {
            scale
        };
        if !(m > i64::MAX || sc > i64::MAX) {
            lemma_scan_digits_range(s, i + 1, m, sc, frac);
        }
    }
}

/// The error of the given kind at position `at`.
pub open spec fn fail(kind: ParseErrorKind, at: int) -> ParseError {
    ParseError { position: at as usize, kind }
}

/// The value of the numeral at `i` and the position after it; a range error
/// where the numeral does not fit.
pub open spec fn numeral_at(s: Seq<u8>, i: int) -> Result<(Ratio, int), ParseError> {
    match scan_numeral(s, i) {
        None => Err(fail(ParseErrorKind::Range, i)),
        Some(sc) => {
            let q = fraction(sc.mantissa, sc.scale);
            if q.fits() {
                Ok((q, sc.end))
            } else {
                Err(fail(ParseErrorKind::Range, i))
            }
        },
    }
}

/// Skips spaces from `i` on.
pub fn skip_spaces_from(s: &[u8], i: usize) -> (j: usize)
    requires
        i <= s.len(),
    ensures
        j == skip_spaces(s@, i as int),
        i <= j <= s.len(),
{
    let mut j: usize = i;
    while j < s.len() && (s[j] == 32 || s[j] == 9 || s[j] == 10 || s[j] == 13)
        invariant
            i <= j <= s.len(),
            skip_spaces(s@, i as int) == skip_spaces(s@, j as int),
        decreases s.len() - j,
    {
        j += 1;
    }
    j
}

/// Finds the end of the name that goes on at `i`.
pub fn name_end_from(s: &[u8], i: usize) -> (j: usize)
    requires
        i <= s.len(),
    ensures
        j == name_end(s@, i as int),
        i <= j <= s.len(),
{
    let mut j: usize = i;
    while j < s.len() && (is_letter_byte(s[j]) || is_digit_byte(s[j]))
        invariant
            i <= j <= s.len(),
            name_end(s@, i as int) == name_end(s@, j as int),
        decreases s.len() - j,
    {
        j += 1;
    }
    j
}

/// Whether the byte is a decimal digit.
pub fn is_digit_byte(b: u8) -> (r: bool)
    ensures
        r == is_digit(b),
{
    48 <= b && b <= 57
}

/// Whether the byte is a letter or `_`.
pub fn is_letter_byte(b: u8) -> (r: bool)
    ensures
        r == is_letter(b),
{
    (65 <= b && b <= 90) || (97 <= b && b <= 122) || b == 95
}

/// Reads digits from `i` on, going on from `mantissa` and `scale`.
fn scan_digits_from(s: &[u8], i: usize, mantissa: i64, scale: i64, frac: bool) -> (r: Option<
    (i64, i64, usize),
>)
    requires
        i <= s.len(),
        0 <= mantissa,
        0 < scale,
    ensures
        match r {
            Some((m, sc, e)) => scan_digits(s@, i as int, mantissa as int, scale as int, frac)
                == Some(Scan { mantissa: m as int, scale: sc as int, end: e as int }) && i <= e
                <= s.len() && 0 <= m && 0 < sc,
            None => scan_digits(s@, i as int, mantissa as int, scale as int, frac) is None,
        },
{
    let mut m: i64 = mantissa;
    let mut sc: i64 = scale;
    let mut j: usize = i;
    while j < s.len() && is_digit_byte(s[j])
        invariant
            i <= j <= s.len(),
            0 <= m,
            0 < sc,
            scan_digits(s@, i as int, mantissa as int, scale as int, frac) == scan_digits(
                s@,
                j as int,
                m as int,
                sc as int,
                frac,
            ),
        decreases s.len() - j,
    {
        let d: i64 = (s[j] - 48) as i64;
        if m > (i64::MAX - d) / 10 {
            return None;
        }
        if frac {
            if sc > i64::MAX / 10 {
                return None;
            }
            sc = sc * 10;
        }
        m = m * 10 + d;
        j += 1;
    }
    Some((m, sc, j))
}

/// Reads the numeral at `i`, which starts with a digit.
pub fn read_numeral(s: &[u8], i: usize) -> (r: Result<(Rational, usize), ParseError>)
    requires
        i < s.len(),
        is_digit(s[i as int]),
    ensures
        match r {
            Ok((q, e)) => numeral_at(s@, i as int) == Ok::<(Ratio, int), ParseError>(
                (q@, e as int),
            ) && i < e <= s.len(),
            Err(e) => numeral_at(s@, i as int) == Err::<(Ratio, int), ParseError>(e),
        },
{
    proof {
        lemma_scan_digits_range(s@, i as int, 0, 1, false);
    }
    let whole = match scan_digits_from(s, i, 0, 1, false) {
        None => {
            return Err(ParseError { position: i, kind: ParseErrorKind::Range });
        },
        Some(a) => a,
    };
    let (m, sc, e) = if whole.2 < s.len() && s[whole.2] == 46 && whole.2 + 1 < s.len()
        && is_digit_byte(s[whole.2 + 1]) {
        match scan_digits_from(s, whole.2 + 1, whole.0, 1, true) {
            None => {
                return Err(ParseError { position: i, kind: ParseErrorKind::Range });
            },
            Some(b) => b,
        }
    } else {
        whole
    };
    match Rational::new(m, sc) {
        Some(q) => Ok((q, e)),
        None => Err(ParseError { position: i, kind: ParseErrorKind::Range }),
    }
}

/// How a constraint relates its sum to its right-hand side.
#[derive(Clone, Copy, Debug, PartialEq, Eq, Structural)]
pub enum Relation {
    /// `<=`
    Le,
    /// `>=`
    Ge,
    /// `=`
    Eq,
}

/// A term of a sum: a coefficient, a variable's name, and the position of the
/// name in the text.
#[derive(Debug)]
pub struct Term {
    pub coeff: Rational,
    pub name: Vec<u8>,
    pub at: usize,
}

/// The model of a [`Term`].
pub struct TermModel {
    pub coeff: Ratio,
    pub name: Seq<u8>,
    pub at: usize,
}

impl View for Term {
    type V = TermModel;

    open spec fn view(&self) -> TermModel {
        TermModel { coeff: self.coeff@, name: self.name@, at: self.at }
    }
}

/// The model of a list of terms.
pub open spec fn terms_view(t: Seq<Term>) -> Seq<TermModel> {
    Seq::new(t.len(), |k: int| t[k]@)
}

/// A constraint: a sum, a relation, a right-hand side, and the position at
/// which it starts in the text.
#[derive(Debug)]
pub struct Constraint {
    pub terms: Vec<Term>,
    pub relation: Relation,
    pub rhs: Rational,
    pub at: usize,
}

/// The model of a [`Constraint`].
pub struct ConstraintModel {
    pub terms: Seq<TermModel>,
    pub relation: Relation,
    pub rhs: Ratio,
    pub at: usize,
}

impl View for Constraint {
    type V = ConstraintModel;

    open spec fn view(&self) -> ConstraintModel {
        ConstraintModel {
            terms: terms_view(self.terms@),
            relation: self.relation,
            rhs: self.rhs@,
            at: self.at,
        }
    }
}

/// The model of a list of constraints.
pub open spec fn constraints_view(c: Seq<Constraint>) -> Seq<ConstraintModel> {
    Seq::new(c.len(), |k: int| c[k]@)
}

/// A problem as written: the sense, the objective's sum and the constraints.
#[derive(Debug)]
pub struct Program {
    pub sense: Sense,
    pub objective: Vec<Term>,
    pub constraints: Vec<Constraint>,
}

/// The model of a [`Program`].
pub struct ProgramModel {
    pub sense: Sense,
    pub objective: Seq<TermModel>,
    pub constraints: Seq<ConstraintModel>,
}

impl View for Program {
    type V = ProgramModel;

    open spec fn view(&self) -> ProgramModel {
        ProgramModel {
            sense: self.sense,
            objective: terms_view(self.objective@),
            constraints: constraints_view(self.constraints@),
        }
    }
}

/// The byte is `+` or `-`.
pub open spec fn is_sign(b: u8) -> bool {
    b == 43 || b == 45
}

/// The name at `k` with the coefficient `coeff` before it, and the position
/// after the name.
pub open spec fn name_after(s: Seq<u8>, k: int, coeff: Ratio) -> Result<
    (TermModel, int),
    ParseError,
> {
    if 0 <= k < s.len() && is_letter(s[k]) {
        let e = name_end(s, k + 1);
        Ok((TermModel { coeff, name: s.subrange(k, e), at: k as usize }, e))
    } else {
        Err(fail(ParseErrorKind::Variable, k))
    }
}

/// The term at `i` and the position after it: a sign or none, a numeral or
/// none, and a name.
pub open spec fn term_at(s: Seq<u8>, i: int) -> Result<(TermModel, int), ParseError> {
    let signed = 0 <= i < s.len() && is_sign(s[i]);
    let negative = signed && s[i] == 45;
    let j = if signed {
        skip_spaces(s, i + 1)
    } else {
        i
    };
    if 0 <= j < s.len() && is_digit(s[j]) {
        match numeral_at(s, j) {
            Err(e) => Err(e),
            Ok((q, e)) => name_after(
                s,
                skip_spaces(s, e),
                if negative {
                    q.negated()
                } else {
                    q
                },
            ),
        }
    } else {
        name_after(
            s,
            j,
            if negative {
                Ratio::of_int(-1)
            } else {
                Ratio::of_int(1)
            },
        )
    }
}

/// The sum whose next term starts at `i`, after the terms `acc`, and the
/// position of the first byte after the sum that is no space. The sum goes on
/// while a sign follows a term.
pub open spec fn sum_from(s: Seq<u8>, i: int, acc: Seq<TermModel>) -> Result<
    (Seq<TermModel>, int),
    ParseError,
>
    decreases s.len() - i,
{
    match term_at(s, i) {
        Err(e) => Err(e),
        Ok((t, e)) => {
            let j = skip_spaces(s, e);
            if i < j < s.len() && is_sign(s[j]) {
                sum_from(s, j, acc.push(t))
            } else {
                Ok((acc.push(t), j))
            }
        },
    }
}

/// The relation at `j` and the position after it.
pub open spec fn relation_at(s: Seq<u8>, j: int) -> Result<(Relation, int), ParseError> {
    if 0 <= j && j + 1 < s.len() && s[j] == 60 && s[j + 1] == 61 {
        Ok((Relation::Le, j + 2))
    } else if 0 <= j && j + 1 < s.len() && s[j] == 62 && s[j + 1] == 61 {
        Ok((Relation::Ge, j + 2))
    } else if 0 <= j < s.len() && s[j] == 61 {
        Ok((Relation::Eq, j + 1))
    } else {
        Err(fail(ParseErrorKind::Relation, j))
    }
}

/// The number at `i` and the position after it: a sign or none, and a
/// numeral.
pub open spec fn number_at(s: Seq<u8>, i: int) -> Result<(Ratio, int), ParseError> {
    let signed = 0 <= i < s.len() && is_sign(s[i]);
    let negative = signed && s[i] == 45;
    let j = if signed {
        skip_spaces(s, i + 1)
    } else {
        i
    };
    if 0 <= j < s.len() && is_digit(s[j]) {
        match numeral_at(s, j) {
            Err(e) => Err(e),
            Ok((q, e)) => Ok((
                if negative {
                    q.negated()
                } else {
                    q
                },
                e,
            )),
        }
    } else {
        Err(fail(ParseErrorKind::Number, j))
    }
}

/// The position after the `;` at `j`.
pub open spec fn semicolon_at(s: Seq<u8>, j: int) -> Result<int, ParseError> {
    if 0 <= j < s.len() && s[j] == 59 {
        Ok(j + 1)
    } else {
        Err(fail(ParseErrorKind::Semicolon, j))
    }
}

/// The constraint at `i` and the position after its `;`.
pub open spec fn constraint_at(s: Seq<u8>, i: int) -> Result<(ConstraintModel, int), ParseError> {
    match sum_from(s, i, Seq::empty()) {
        Err(e) => Err(e),
        Ok((terms, j)) => match relation_at(s, j) {
            Err(e) => Err(e),
            Ok((relation, k)) => match number_at(s, skip_spaces(s, k)) {
                Err(e) => Err(e),
                Ok((rhs, e)) => match semicolon_at(s, skip_spaces(s, e)) {
                    Err(e) => Err(e),
                    Ok(end) => Ok((ConstraintModel { terms, relation, rhs, at: i as usize }, end)),
                },
            },
        },
    }
}

/// The constraints from `i` to the end of the text, after the constraints
/// `acc`.
pub open spec fn constraints_from(s: Seq<u8>, i: int, acc: Seq<ConstraintModel>) -> Result<
    Seq<ConstraintModel>,
    ParseError,
>
    decreases s.len() - i,
{
    let j = skip_spaces(s, i);
    if j >= s.len() {
        Ok(acc)
    } else {
        match constraint_at(s, j) {
            Err(e) => Err(e),
            Ok((c, e)) => if i < e {
                constraints_from(s, e, acc.push(c))
            } else {
                Ok(acc.push(c))
            },
        }
    }
}

/// The objective at `i`, and the position after its `;`.
pub open spec fn objective_at(s: Seq<u8>, i: int) -> Result<
    (Sense, Seq<TermModel>, int),
    ParseError,
> {
    if 0 <= i && i + 2 < s.len() && s[i] == 109 && ((s[i + 1] == 97 && s[i + 2] == 120) || (s[i
        + 1] == 105 && s[i + 2] == 110)) {
        let sense = if s[i + 1] == 97 {
            Sense::Maximize
        } else {
            Sense::Minimize
        };
        match sum_from(s, skip_spaces(s, i + 3), Seq::empty()) {
            Err(e) => Err(e),
            Ok((terms, j)) => match semicolon_at(s, j) {
                Err(e) => Err(e),
                Ok(end) => Ok((sense, terms, end)),
            },
        }
    } else {
        Err(fail(ParseErrorKind::Objective, i))
    }
}

/// The problem that a text states, or the first error in it.
pub open spec fn program_of(s: Seq<u8>) -> Result<ProgramModel, ParseError> {
    match objective_at(s, skip_spaces(s, 0)) {
        Err(e) => Err(e),
        Ok((sense, objective, end)) => match constraints_from(s, end, Seq::empty()) {
            Err(e) => Err(e),
            Ok(constraints) => Ok(ProgramModel { sense, objective, constraints }),
        },
    }
}

/// Copies the bytes from `from` up to `to`.
pub fn copy_range(s: &[u8], from: usize, to: usize) -> (r: Vec<u8>)
    requires
        from <= to <= s.len(),
    ensures
        r@ == s@.subrange(from as int, to as int),
{
    let mut out: Vec<u8> = Vec::new();
    let mut j: usize = from;
    while j < to
        invariant
            from <= j <= to,
            to <= s.len(),
            out.len() == j - from,
            forall|k: int| 0 <= k < out.len() ==> out[k] == s[from + k],
        decreases to - j,
    {
        out.push(s[j]);
        j += 1;
    }
    assert(out@ =~= s@.subrange(from as int, to as int));
    out
}

/// Reads the name at `k` and makes the term with the coefficient `coeff`.
fn read_name(s: &[u8], k: usize, coeff: Rational) -> (r: Result<(Term, usize), ParseError>)
    requires
        k <= s.len(),
    ensures
        match r {
            Ok((t, e)) => name_after(s@, k as int, coeff@) == Ok::<(TermModel, int), ParseError>(
                (t@, e as int),
            ) && k < e <= s.len(),
            Err(e) => name_after(s@, k as int, coeff@) == Err::<(TermModel, int), ParseError>(e),
        },
{
    if k < s.len() && is_letter_byte(s[k]) {
        let e = name_end_from(s, k + 1);
        Ok((Term { coeff, name: copy_range(s, k, e), at: k }, e))
    } else {
        Err(ParseError { position: k, kind: ParseErrorKind::Variable })
    }
}

/// Reads the term at `i`.
pub fn read_term(s: &[u8], i: usize) -> (r: Result<(Term, usize), ParseError>)
    requires
        i <= s.len(),
    ensures
        match r {
            Ok((t, e)) => term_at(s@, i as int) == Ok::<(TermModel, int), ParseError>(
                (t@, e as int),
            ) && i < e <= s.len(),
            Err(e) => term_at(s@, i as int) == Err::<(TermModel, int), ParseError>(e),
        },
{
    let signed = i < s.len() && (s[i] == 43 || s[i] == 45);
    let negative = signed && s[i] == 45;
    let j = if signed {
        skip_spaces_from(s, i + 1)
    } else {
        i
    };
    if j < s.len() && is_digit_byte(s[j]) {
        match read_numeral(s, j) {
            Err(e) => Err(e),
            Ok((q, e)) => {
                let k = skip_spaces_from(s, e);
                let coeff = if negative {
                    q.neg()
                } else {
                    q
                };
                read_name(s, k, coeff)
            },
        }
    } else {
        let coeff = if negative {
            Rational::one().neg()
        } else {
            Rational::one()
        };
        read_name(s, j, coeff)
    }
}

/// Reads the sum that starts at `i`. Returns its terms and the position of the
/// first byte after it that is no space.
pub fn read_sum(s: &[u8], i: usize) -> (r: Result<(Vec<Term>, usize), ParseError>)
    requires
        i <= s.len(),
    ensures
        match r {
            Ok((ts, e)) => sum_from(s@, i as int, Seq::empty()) == Ok::<
                (Seq<TermModel>, int),
                ParseError,
            >((terms_view(ts@), e as int)) && i < e <= s.len(),
            Err(e) => sum_from(s@, i as int, Seq::empty()) == Err::<
                (Seq<TermModel>, int),
                ParseError,
            >(e),
        },
{
    let mut terms: Vec<Term> = Vec::new();
    let mut at: usize = i;
    assert(terms_view(terms@) =~= Seq::empty());
    loop
        invariant
            i <= at <= s.len(),
            sum_from(s@, i as int, Seq::empty()) == sum_from(s@, at as int, terms_view(terms@)),
        decreases s.len() - at,
    {
        match read_term(s, at) {
            Err(e) => {
                return Err(e);
            },
            Ok((t, e)) => {
                let j = skip_spaces_from(s, e);
                let ghost before = terms_view(terms@);
                let ghost tm = t@;
                terms.push(t);
                assert(terms_view(terms@) =~= before.push(tm));
                if j < s.len() && (s[j] == 43 || s[j] == 45) {
                    at = j;
                } else {
                    return Ok((terms, j));
                }
            },
        }
    }
}

/// Reads the relation at `j`.
pub fn read_relation(s: &[u8], j: usize) -> (r: Result<(Relation, usize), ParseError>)
    requires
        j <= s.len(),
    ensures
        match r {
            Ok((rel, e)) => relation_at(s@, j as int) == Ok::<(Relation, int), ParseError>(
                (rel, e as int),
            ) && j < e <= s.len(),
            Err(e) => relation_at(s@, j as int) == Err::<(Relation, int), ParseError>(e),
        },
{
    if j < s.len() && j + 1 < s.len() && s[j] == 60 && s[j + 1] == 61 {
        Ok((Relation::Le, j + 2))
    } else if j < s.len() && j + 1 < s.len() && s[j] == 62 && s[j + 1] == 61 {
        Ok((Relation::Ge, j + 2))
    } else if j < s.len() && s[j] == 61 {
        Ok((Relation::Eq, j + 1))
    } else {
        Err(ParseError { position: j, kind: ParseErrorKind::Relation })
    }
}

/// Reads the number at `i`.
pub fn read_number(s: &[u8], i: usize) -> (r: Result<(Rational, usize), ParseError>)
    requires
        i <= s.len(),
    ensures
        match r {
            Ok((q, e)) => number_at(s@, i as int) == Ok::<(Ratio, int), ParseError>(
                (q@, e as int),
            ) && i < e <= s.len(),
            Err(e) => number_at(s@, i as int) == Err::<(Ratio, int), ParseError>(e),
        },
{
    let signed = i < s.len() && (s[i] == 43 || s[i] == 45);
    let negative = signed && s[i] == 45;
    let j = if signed {
        skip_spaces_from(s, i + 1)
    } else {
        i
    };
    if j < s.len() && is_digit_byte(s[j]) {
        match read_numeral(s, j) {
            Err(e) => Err(e),
            Ok((q, e)) => Ok((
                if negative {
                    q.neg()
                } else {
                    q
                },
                e,
            )),
        }
    } else {
        Err(ParseError { position: j, kind: ParseErrorKind::Number })
    }
}

/// Reads the `;` at `j`.
pub fn read_semicolon(s: &[u8], j: usize) -> (r: Result<usize, ParseError>)
    requires
        j <= s.len(),
    ensures
        match r {
            Ok(e) => semicolon_at(s@, j as int) == Ok::<int, ParseError>(e as int) && j < e
                <= s.len(),
            Err(e) => semicolon_at(s@, j as int) == Err::<int, ParseError>(e),
        },
{
    if j < s.len() && s[j] == 59 {
        Ok(j + 1)
    } else {
        Err(ParseError { position: j, kind: ParseErrorKind::Semicolon })
    }
}

/// Reads the constraint at `i`.
pub fn read_constraint(s: &[u8], i: usize) -> (r: Result<(Constraint, usize), ParseError>)
    requires
        i <= s.len(),
    ensures
        match r {
            Ok((c, e)) => constraint_at(s@, i as int) == Ok::<(ConstraintModel, int), ParseError>(
                (c@, e as int),
            ) && i < e <= s.len(),
            Err(e) => constraint_at(s@, i as int) == Err::<(ConstraintModel, int), ParseError>(e),
        },
{
    let (terms, j) = match read_sum(s, i) {
        Err(e) => {
            return Err(e);
        },
        Ok(v) => v,
    };
    let (relation, k) = match read_relation(s, j) {
        Err(e) => {
            return Err(e);
        },
        Ok(v) => v,
    };
    let k2 = skip_spaces_from(s, k);
    let (rhs, e) = match read_number(s, k2) {
        Err(e) => {
            return Err(e);
        },
        Ok(v) => v,
    };
    let e2 = skip_spaces_from(s, e);
    match read_semicolon(s, e2) {
        Err(e) => Err(e),
        Ok(end) => Ok((Constraint { terms, relation, rhs, at: i }, end)),
    }
}

/// Reads the objective at `i`.
pub fn read_objective(s: &[u8], i: usize) -> (r: Result<(Sense, Vec<Term>, usize), ParseError>)
    requires
        i <= s.len(),
    ensures
        match r {
            Ok((sense, ts, e)) => objective_at(s@, i as int) == Ok::<
                (Sense, Seq<TermModel>, int),
                ParseError,
            >((sense, terms_view(ts@), e as int)) && i < e <= s.len(),
            Err(e) => objective_at(s@, i as int) == Err::<
                (Sense, Seq<TermModel>, int),
                ParseError,
            >(e),
        },
{
    if i < s.len() && s.len() - i > 2 && s[i] == 109 && ((s[i + 1] == 97 && s[i + 2] == 120) || (
    s[i + 1] == 105 && s[i + 2] == 110)) {
        let sense = if s[i + 1] == 97 {
            Sense::Maximize
        } else {
            Sense::Minimize
        };
        let start = skip_spaces_from(s, i + 3);
        let (terms, j) = match read_sum(s, start) {
            Err(e) => {
                return Err(e);
            },
            Ok(v) => v,
        };
        match read_semicolon(s, j) {
            Err(e) => Err(e),
            Ok(end) => Ok((sense, terms, end)),
        }
    } else {
        Err(ParseError { position: i, kind: ParseErrorKind::Objective })
    }
}

/// The reader of the problem language.
pub struct LPParser;

impl LPParser {
    /// Reads a problem text: the problem that it states, or the first error
    /// in it.
    pub fn parse(s: &[u8]) -> (r: Result<Program, ParseError>)
        ensures
            match r {
                Ok(p) => program_of(s@) == Ok::<ProgramModel, ParseError>(p@),
                Err(e) => program_of(s@) == Err::<ProgramModel, ParseError>(e),
            },
    {
        let start = skip_spaces_from(s, 0);
        let (sense, objective, end) = match read_objective(s, start) {
            Err(e) => {
                return Err(e);
            },
            Ok(v) => v,
        };
        let mut constraints: Vec<Constraint> = Vec::new();
        let mut at: usize = end;
        assert(constraints_view(constraints@) =~= Seq::empty());
        loop
            invariant
                at <= s.len(),
                objective_at(s@, skip_spaces(s@, 0)) == Ok::<
                    (Sense, Seq<TermModel>, int),
                    ParseError,
                >((sense, terms_view(objective@), end as int)),
                constraints_from(s@, end as int, Seq::empty()) == constraints_from(
                    s@,
                    at as int,
                    constraints_view(constraints@),
                ),
            decreases s.len() - at,
        {
            let j = skip_spaces_from(s, at);
            if j >= s.len() {
                return Ok(Program { sense, objective, constraints });
            }
            match read_constraint(s, j) {
                Err(e) => {
                    return Err(e);
                },
                Ok((c, e)) => {
                    let ghost before = constraints_view(constraints@);
                    let ghost cm = c@;
                    constraints.push(c);
                    assert(constraints_view(constraints@) =~= before.push(cm));
                    at = e;
                },
            }
        }
    }
}

} // verus!
