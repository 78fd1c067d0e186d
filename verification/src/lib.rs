//! A verified normalizer and closed-form solver for single-indeterminate
//! polynomial equations.
//!
//! An equation such as `5 * X^0 + 4 * X^1 - 9.3 * X^2 = 1 * X^0` is
//! parsed into the sparse mappings of its two sides, reduced to the
//! mapping of `left - right`, written out as a dense coefficient vector
//! with no trailing zeros, and, for degree at most two, solved over the
//! reals.  Coefficients are IEEE-754 single-precision values carried as
//! their bit patterns; see `coef` for how their arithmetic is obtained.

use vstd::prelude::*;

pub mod coef;
pub mod laws;
pub mod sparse;
pub mod term;
pub mod text;

verus! {

use crate::coef::{
    ZERO_BITS,
    TWO_BITS,
    FOUR_BITS,
    is_zero_bits,
    neg_bits,
    add_bits,
    sub_bits,
    mul_bits,
    div_bits,
    sqrt_bits,
    gt_bits,
    coef_is_zero,
    coef_neg,
    coef_add,
    coef_sub,
    coef_mul,
    coef_div,
    coef_sqrt,
    coef_gt,
};
use crate::text::{
    strip_spaces_s,
    split_s,
    count_c,
    seq_views,
    chars_of,
    strip_spaces,
    split_chars,
    lemma_split_len,
    lemma_count_strip_spaces,
};
use crate::term::{
    monomial_s,
    indet_degree_s,
    parse_monomial_chars,
    parse_indeterminate_chars,
    lemma_monomial_degree_bound,
    lemma_indet_degree_bound,
};
use crate::sparse::{
    eq_map_s,
    reduce_s,
    dense_s,
    trim_s,
    parse_equation_chars,
    simplify_equations,
    map2vec,
    lemma_trim_last_nonzero,
};

/// The two ways an equation can be malformed: not exactly one `=`, or a
/// lexically bad monomial anywhere in either side.
#[derive(Debug, PartialEq, Eq, Structural)]
pub enum ParseError {
    EqualSignError,
    ParseNumError,
}

/// Spec model of the whole front end: strip spaces, demand exactly one
/// `=`, parse both sides, reduce, densify, trim.
pub open spec fn parse_s(s: Seq<char>) -> Result<Seq<u32>, ParseError> {
    let t = strip_spaces_s(s);
    let sides = split_s(t, '=');
    if sides.len() != 2 {
        Err(ParseError::EqualSignError)
    } else {
        match eq_map_s(sides[0]) {
            None => Err(ParseError::ParseNumError),
            Some(l) => match eq_map_s(sides[1]) {
                None => Err(ParseError::ParseNumError),
                Some(r) => Ok(trim_s(dense_s(reduce_s(l, r)))),
            },
        }
    }
}

/// Parses an indeterminate token: `X` denotes degree 1, `X^<digits>`
/// the written degree; anything else, a negative exponent included,
/// fails with `ParseNumError`.  The degree returned is never negative.
pub fn parse_indeterminate(indeterminate: &str) -> (r: Result<i32, ParseError>)
    ensures
        match indet_degree_s(indeterminate@) {
            Some(d) => r == Ok::<i32, ParseError>(d as i32) && d <= 0x7FFF_FFFF,
            None => r == Err::<i32, ParseError>(ParseError::ParseNumError),
        },
{
    proof {
        lemma_indet_degree_bound(indeterminate@);
    }
    let cs = chars_of(indeterminate);
    match parse_indeterminate_chars(&cs) {
        Some(d) => Ok(d as i32),
        None => Err(ParseError::ParseNumError),
    }
}

/// Parses one signed term into its (coefficient bits, degree) pair:
/// `<coef>*<indeterminate>`, a lone indeterminate with implicit
/// coefficient 1, the empty no-op term, or a bare constant at degree 0.
pub fn parse_monomial(monomial: &str) -> (r: Result<(u32, i32), ParseError>)
    ensures
        match monomial_s(monomial@) {
            Some(cd) => r == Ok::<(u32, i32), ParseError>((cd.0, cd.1 as i32)) && cd.1
                <= 0x7FFF_FFFF,
            None => r == Err::<(u32, i32), ParseError>(ParseError::ParseNumError),
        },
{
    proof {
        lemma_monomial_degree_bound(monomial@);
    }
    let cs = chars_of(monomial);
    match parse_monomial_chars(&cs) {
        Some(cd) => Ok((cd.0, cd.1 as i32)),
        None => Err(ParseError::ParseNumError),
    }
}

/// Parses a polynomial equation into the dense, trimmed coefficient
/// vector of `left - right`.  Fails with `EqualSignError` exactly when
/// the input does not hold exactly one `=`; fails with `ParseNumError`
/// exactly when some monomial of either side is malformed.
pub fn parse(line: &str) -> (r: Result<Vec<u32>, ParseError>)
    ensures
        (match r {
            Ok(v) => parse_s(line@) == Ok::<Seq<u32>, ParseError>(v@),
            Err(e) => parse_s(line@) == Err::<Seq<u32>, ParseError>(e),
        }),
        r == Err::<Vec<u32>, ParseError>(ParseError::EqualSignError) <==> count_c(line@, '=')
            != 1,
        (match r {
            Ok(v) => v@.len() == 0 || !is_zero_bits(v@.last()),
            Err(_) => true,
        }),
{
    let cs = chars_of(line);
    let t = strip_spaces(&cs);
    let sides = split_chars(&t, '=');
    proof {
        lemma_split_len(t@, '=');
        lemma_count_strip_spaces(cs@, '=');
    }
    if sides.len() != 2 {
        return Err(ParseError::EqualSignError);
    }
    proof {
        assert(sides@[0]@ == seq_views(sides@)[0]);
        assert(sides@[1]@ == seq_views(sides@)[1]);
    }
    let left = match parse_equation_chars(&sides[0]) {
        Some(m) => m,
        None => {
            return Err(ParseError::ParseNumError);
        },
    };
    let right = match parse_equation_chars(&sides[1]) {
        Some(m) => m,
        None => {
            return Err(ParseError::ParseNumError);
        },
    };
    let reduced = simplify_equations(left, &right);
    let ghost reduced_map = reduced@;
    let v = map2vec(reduced);
    proof {
        lemma_trim_last_nonzero(dense_s(reduced_map));
    }
    Ok(v)
}

/// A polynomial in one indeterminate: the dense coefficient vector of
/// its canonical `P(X) = 0` form, index = degree, no trailing zeros.
pub struct Poly {
    coefficients: Vec<u32>,
}

impl View for Poly {
    type V = Seq<u32>;

    closed spec fn view(&self) -> Seq<u32> {
        self.coefficients@
    }
}

/// Spec model of the discriminant `b*b - 4*a*c` of `a*X^2 + b*X + c`.
pub open spec fn disc_s(c: u32, b: u32, a: u32) -> u32 {
    sub_bits(mul_bits(b, b), mul_bits(mul_bits(FOUR_BITS, a), c))
}

/// Spec model of the quadratic formula: two roots for a positive
/// discriminant (the `+sqrt` one first), one for a zero discriminant,
/// none for a negative one.
pub open spec fn quad_s(c: u32, b: u32, a: u32) -> Option<Seq<u32>> {
    let d = disc_s(c, b, a);
    if gt_bits(d, ZERO_BITS) {
        Some(
            seq![
                div_bits(add_bits(neg_bits(b), sqrt_bits(d)), mul_bits(TWO_BITS, a)),
                div_bits(sub_bits(neg_bits(b), sqrt_bits(d)), mul_bits(TWO_BITS, a)),
            ],
        )
    } else if is_zero_bits(d) {
        Some(seq![div_bits(neg_bits(b), mul_bits(TWO_BITS, a))])
    } else {
        None
    }
}

/// Spec model of the root set: by (trimmed) length, a lone zero constant
/// has every real as a root (empty list), a lone nonzero constant none,
/// degree 1 the exact linear root, degree 2 the quadratic formula, and
/// everything else — the zero polynomial and degree three or more —
/// reports no list at all.
pub open spec fn solve_s(c: Seq<u32>) -> Option<Seq<u32>> {
    if c.len() == 1 {
        if is_zero_bits(c[0]) {
            Some(Seq::<u32>::empty())
        } else {
            None
        }
    } else if c.len() == 2 {
        Some(seq![div_bits(neg_bits(c[0]), c[1])])
    } else if c.len() == 3 {
        quad_s(c[0], c[1], c[2])
    } else {
        None
    }
}

impl Poly {
    /// No trailing zero coefficient: the last entry, if any, is nonzero,
    /// so the length determines the polynomial's true degree.
    pub open spec fn wf(&self) -> bool {
        self@.len() == 0 || !is_zero_bits(self@.last())
    }

    /// Parses an equation into its canonical polynomial.
    pub fn new(line: &str) -> (r: Result<Poly, ParseError>)
        ensures
            match r {
                Ok(p) => parse_s(line@) == Ok::<Seq<u32>, ParseError>(p@) && p.wf(),
                Err(e) => parse_s(line@) == Err::<Seq<u32>, ParseError>(e),
            },
    {
        match parse(line) {
            Ok(coefficients) => Ok(Poly { coefficients }),
            Err(e) => Err(e),
        }
    }

    /// The dense coefficient vector, index = degree.
    pub fn coefficients(&self) -> (r: &Vec<u32>)
        ensures
            r@ == self@,
    {
        &self.coefficients
    }

    /// The polynomial's degree: one less than the vector's length, so -1
    /// for the zero polynomial.
    pub fn get_degree(&self) -> (r: i32)
        requires
            self@.len() <= 0x7FFF_FFFF,
        ensures
            r == self@.len() - 1,
    {
        let n = self.coefficients.len();
        if n == 0 {
            -1
        } else {
            (n - 1) as i32
        }
    }

    /// The real root set: a list of
    /// 0, 1 or 2 roots for degrees 0 through 2, and no list at all for
    /// the zero polynomial or degree three and higher.
    pub fn solve(&self) -> (r: Option<Vec<u32>>)
        ensures
            match r {
                Some(v) => solve_s(self@) == Some(v@),
                None => solve_s(self@) is None,
            },
            self.wf() && self@.len() == 1 ==> r is None,
    {
        let n = self.coefficients.len();
        if n == 1 {
            if coef_is_zero(self.coefficients[0]) {
                Some(Vec::new())
            } else {
                None
            }
        } else if n == 2 {
            let root = coef_div(coef_neg(self.coefficients[0]), self.coefficients[1]);
            let mut v: Vec<u32> = Vec::new();
            v.push(root);
            proof {
                assert(v@ =~= seq![div_bits(neg_bits(self@[0]), self@[1])]);
            }
            Some(v)
        } else if n == 3 {
            self.quadratic_formula()
        } else {
            None
        }
    }

    /// The quadratic case of `solve`.
    fn quadratic_formula(&self) -> (r: Option<Vec<u32>>)
        requires
            self@.len() == 3,
        ensures
            match r {
                Some(v) => quad_s(self@[0], self@[1], self@[2]) == Some(v@),
                None => quad_s(self@[0], self@[1], self@[2]) is None,
            },
    {
        let a = self.coefficients[2];
        let b = self.coefficients[1];
        let c = self.coefficients[0];
        let disc = coef_sub(coef_mul(b, b), coef_mul(coef_mul(FOUR_BITS, a), c));
        if coef_gt(disc, ZERO_BITS) {
            let sq = coef_sqrt(disc);
            let two_a = coef_mul(TWO_BITS, a);
            let r1 = coef_div(coef_add(coef_neg(b), sq), two_a);
            let r2 = coef_div(coef_sub(coef_neg(b), sq), two_a);
            let mut v: Vec<u32> = Vec::new();
            v.push(r1);
            v.push(r2);
            proof {
                let d = disc_s(self@[0], self@[1], self@[2]);
                assert(v@ =~= seq![
                    div_bits(add_bits(neg_bits(self@[1]), sqrt_bits(d)), mul_bits(TWO_BITS, self@[2])),
                    div_bits(sub_bits(neg_bits(self@[1]), sqrt_bits(d)), mul_bits(TWO_BITS, self@[2])),
                ]);
            }
            Some(v)
        } else if coef_is_zero(disc) {
            let mut v: Vec<u32> = Vec::new();
            v.push(coef_div(coef_neg(b), coef_mul(TWO_BITS, a)));
            proof {
                let d = disc_s(self@[0], self@[1], self@[2]);
                assert(v@ =~= seq![div_bits(neg_bits(self@[1]), mul_bits(TWO_BITS, self@[2]))]);
            }
            Some(v)
        } else {
            None
        }
    }
}

/// The solver's verdict on a reduced equation.
#[derive(Debug, PartialEq, Eq, Structural)]
pub enum RootOutcome {
    /// The equation reduced to `0 = 0`: every real number is a solution.
    InfiniteSolutions,
    /// A nonzero constant equals zero, or the discriminant is negative.
    NoRealSolution,
    /// Exactly one real root.
    OneRoot(u32),
    /// Two real roots, the `+sqrt` one first.
    TwoRoots(u32, u32),
    /// Degree three or higher: no closed form is attempted.
    DegreeTooHigh,
}

/// Spec model of the verdict on a trimmed coefficient vector.
pub open spec fn outcome_s(c: Seq<u32>) -> RootOutcome {
    if c.len() == 0 {
        RootOutcome::InfiniteSolutions
    } else if c.len() == 1 {
        RootOutcome::NoRealSolution
    } else if c.len() == 2 {
        RootOutcome::OneRoot(div_bits(neg_bits(c[0]), c[1]))
    } else if c.len() == 3 {
        let d = disc_s(c[0], c[1], c[2]);
        if gt_bits(d, ZERO_BITS) {
            RootOutcome::TwoRoots(
                div_bits(add_bits(neg_bits(c[1]), sqrt_bits(d)), mul_bits(TWO_BITS, c[2])),
                div_bits(sub_bits(neg_bits(c[1]), sqrt_bits(d)), mul_bits(TWO_BITS, c[2])),
            )
        } else if is_zero_bits(d) {
            RootOutcome::OneRoot(div_bits(neg_bits(c[1]), mul_bits(TWO_BITS, c[2])))
        } else {
            RootOutcome::NoRealSolution
        }
    } else {
        RootOutcome::DegreeTooHigh
    }
}

/// Core entry point: parses the equation and classifies its real
/// solutions.  Returns `Ok` exactly on the inputs the grammar admits,
/// and otherwise the parse error.
pub fn solve_equation(raw: &str) -> (r: Result<RootOutcome, ParseError>)
    ensures
        match parse_s(raw@) {
            Ok(v) => r == Ok::<RootOutcome, ParseError>(outcome_s(v)),
            Err(e) => r == Err::<RootOutcome, ParseError>(e),
        },
{
    let coeffs = match parse(raw) {
        Ok(v) => v,
        Err(e) => {
            return Err(e);
        },
    };
    let n = coeffs.len();
    if n == 0 {
        Ok(RootOutcome::InfiniteSolutions)
    } else if n == 1 {
        Ok(RootOutcome::NoRealSolution)
    } else if n == 2 {
        Ok(RootOutcome::OneRoot(coef_div(coef_neg(coeffs[0]), coeffs[1])))
    } else if n == 3 {
        let a = coeffs[2];
        let b = coeffs[1];
        let c = coeffs[0];
        let disc = coef_sub(coef_mul(b, b), coef_mul(coef_mul(FOUR_BITS, a), c));
        if coef_gt(disc, ZERO_BITS) {
            let sq = coef_sqrt(disc);
            let two_a = coef_mul(TWO_BITS, a);
            Ok(
                RootOutcome::TwoRoots(
                    coef_div(coef_add(coef_neg(b), sq), two_a),
                    coef_div(coef_sub(coef_neg(b), sq), two_a),
                ),
            )
        } else if coef_is_zero(disc) {
            Ok(RootOutcome::OneRoot(coef_div(coef_neg(b), coef_mul(TWO_BITS, a))))
        } else {
            Ok(RootOutcome::NoRealSolution)
        }
    } else {
        Ok(RootOutcome::DegreeTooHigh)
    }
}

} // verus!
