//! The grammar of one signed term: a bare constant, `X`, `X^<digits>`,
//! or `<coefficient> * <indeterminate>`.  The sign of a term was already
//! folded into its coefficient by the expression-level rewrite, so no
//! `+` or `-` reaches this level except as the coefficient's leading sign.

use vstd::prelude::*;
use crate::coef::{ONE_BITS, ZERO_BITS, parse_f32_bits, coef_parse};
use crate::text::{split_s, split_chars, seq_views};

verus! {

/// Decimal digit.
pub open spec fn is_digit_c(c: char) -> bool {
    48 <= c as u32 && c as u32 <= 57
}

/// Value of a digit string, most significant digit first.
pub open spec fn dec_val(s: Seq<char>) -> int
    decreases s.len(),
{
    if s.len() == 0 {
        0
    } else {
        dec_val(s.drop_last()) * 10 + (s.last() as u32 - 48)
    }
}

pub open spec fn all_digits(s: Seq<char>) -> bool {
    forall|i: int| 0 <= i < s.len() ==> is_digit_c(s[i])
}

/// A well-formed exponent: one or more digits, no sign, whose value is
/// at most 2147483647, the widest degree a signed 32-bit count can
/// carry; negative exponents are rejected outright.
pub open spec fn exponent_ok(s: Seq<char>) -> bool {
    s.len() > 0 && all_digits(s) && dec_val(s) <= 0x7FFF_FFFF
}

/// The bare indeterminate token.
pub open spec fn is_x_token(s: Seq<char>) -> bool {
    s.len() == 1 && s[0] == 'X'
}

/// Spec model of the indeterminate grammar: `X` alone denotes degree 1,
/// `X^<digits>` the written degree; everything else is malformed.
pub open spec fn indet_degree_s(s: Seq<char>) -> Option<u32> {
    let parts = split_s(s, '^');
    if parts.len() == 2 && is_x_token(parts[0]) && exponent_ok(parts[1]) {
        Some(dec_val(parts[1]) as u32)
    } else if parts.len() == 1 && is_x_token(parts[0]) {
        Some(1u32)
    } else {
        None
    }
}

pub open spec fn contains_x(s: Seq<char>) -> bool {
    exists|i: int| 0 <= i < s.len() && s[i] == 'X'
}

/// Spec model of one signed term, as a (coefficient bits, degree) pair:
/// with one `*`, a coefficient times an indeterminate; with none, an
/// indeterminate with implicit coefficient 1, an empty no-op term, or a
/// bare constant; with more than one `*`, malformed.
pub open spec fn monomial_s(s: Seq<char>) -> Option<(u32, u32)> {
    let parts = split_s(s, '*');
    if parts.len() == 2 {
        match parse_f32_bits(parts[0]) {
            Some(c) => match indet_degree_s(parts[1]) {
                Some(d) => Some((c, d)),
                None => None,
            },
            None => None,
        }
    } else if parts.len() == 1 {
        if contains_x(parts[0]) {
            match indet_degree_s(parts[0]) {
                Some(d) => Some((ONE_BITS, d)),
                None => None,
            }
        } else if parts[0].len() == 0 {
            Some((ZERO_BITS, 0u32))
        } else {
            match parse_f32_bits(parts[0]) {
                Some(c) => Some((c, 0u32)),
                None => None,
            }
        }
    } else {
        None
    }
}

/// A digit string denotes a non-negative value.
pub proof fn lemma_dec_val_nonneg(s: Seq<char>)
    requires
        all_digits(s),
    ensures
        dec_val(s) >= 0,
    decreases s.len(),
{
    if s.len() > 0 {
        assert(forall|i: int| 0 <= i < s.drop_last().len() ==> is_digit_c(#[trigger] s.drop_last()[i]));
        lemma_dec_val_nonneg(s.drop_last());
    }
}

/// A well-formed degree never exceeds 2147483647.
pub proof fn lemma_indet_degree_bound(s: Seq<char>)
    ensures
        match indet_degree_s(s) {
            Some(d) => d <= 0x7FFF_FFFF,
            None => true,
        },
{
    let parts = split_s(s, '^');
    if parts.len() == 2 && is_x_token(parts[0]) && exponent_ok(parts[1]) {
        lemma_dec_val_nonneg(parts[1]);
    }
}

/// A well-formed monomial's degree never exceeds 2147483647.
pub proof fn lemma_monomial_degree_bound(s: Seq<char>)
    ensures
        match monomial_s(s) {
            Some(cd) => cd.1 <= 0x7FFF_FFFF,
            None => true,
        },
{
    let parts = split_s(s, '*');
    if parts.len() == 2 {
        lemma_indet_degree_bound(parts[1]);
    } else if parts.len() == 1 {
        lemma_indet_degree_bound(parts[0]);
    }
}

/// Parses a digit-only exponent, rejecting empty strings, non-digits,
/// and values above 2147483647.
fn parse_exponent(v: &Vec<char>) -> (r: Option<u32>)
    ensures
        r == (if exponent_ok(v@) {
            Some(dec_val(v@) as u32)
        } else {
            None::<u32>
        }),
{
    if v.len() == 0 {
        return None;
    }
    let mut acc: u32 = 0;
    let mut big: bool = false;
    let mut i: usize = 0;
    while i < v.len()
        invariant
            i <= v@.len(),
            all_digits(v@.subrange(0, i as int)),
            !big ==> acc == dec_val(v@.subrange(0, i as int)) && acc <= 0x7FFF_FFFF,
            big ==> dec_val(v@.subrange(0, i as int)) > 0x7FFF_FFFF,
        decreases v@.len() - i,
    {
        let c = v[i];
        let u = c as u32;
        if u < 48 || u > 57 {
            proof {
                assert(!is_digit_c(v@[i as int]));
            }
            return None;
        }
        let d: u32 = u - 48;
        proof {
            assert(v@.subrange(0, i as int + 1).drop_last() =~= v@.subrange(0, i as int));
            assert(v@.subrange(0, i as int + 1).last() == v@[i as int]);
        }
        if big {
            proof {
                let prev = dec_val(v@.subrange(0, i as int));
                assert(dec_val(v@.subrange(0, i as int + 1)) == prev * 10 + d);
            }
        } else {
            let wide: u64 = acc as u64 * 10 + d as u64;
            if wide > 0x7FFF_FFFF {
                big = true;
            } else {
                acc = wide as u32;
            }
        }
        i = i + 1;
    }
    proof {
        assert(v@.subrange(0, v@.len() as int) =~= v@);
    }
    if big {
        None
    } else {
        Some(acc)
    }
}

/// Tests whether the token mentions the indeterminate letter.
fn contains_x_exec(v: &Vec<char>) -> (r: bool)
    ensures
        r == contains_x(v@),
{
    let mut i: usize = 0;
    while i < v.len()
        invariant
            i <= v@.len(),
            forall|j: int| 0 <= j < i ==> v@[j] != 'X',
        decreases v@.len() - i,
    {
        if v[i] == 'X' {
            return true;
        }
        i = i + 1;
    }
    false
}

/// Parses an indeterminate token to its degree.
pub fn parse_indeterminate_chars(v: &Vec<char>) -> (r: Option<u32>)
    ensures
        r == indet_degree_s(v@),
{
    let parts = split_chars(v, '^');
    proof {
        assert(parts@[0]@ == seq_views(parts@)[0]);
    }
    if parts.len() == 2 {
        proof {
            assert(parts@[1]@ == seq_views(parts@)[1]);
        }
        let p0 = &parts[0];
        if p0.len() == 1 && p0[0] == 'X' {
            parse_exponent(&parts[1])
        } else {
            None
        }
    } else if parts.len() == 1 {
        let p0 = &parts[0];
        if p0.len() == 1 && p0[0] == 'X' {
            Some(1)
        } else {
            None
        }
    } else {
        None
    }
}

/// Parses one signed term to its (coefficient bits, degree) pair.
pub fn parse_monomial_chars(v: &Vec<char>) -> (r: Option<(u32, u32)>)
    ensures
        r == monomial_s(v@),
{
    let parts = split_chars(v, '*');
    proof {
        assert(parts@[0]@ == seq_views(parts@)[0]);
    }
    if parts.len() == 2 {
        proof {
            assert(parts@[1]@ == seq_views(parts@)[1]);
        }
        let cbits = coef_parse(&parts[0]);
        let deg = parse_indeterminate_chars(&parts[1]);
        match (cbits, deg) {
            (Some(c), Some(d)) => Some((c, d)),
            _ => None,
        }
    } else if parts.len() == 1 {
        let p0 = &parts[0];
        if contains_x_exec(p0) {
            match parse_indeterminate_chars(p0) {
                Some(d) => Some((ONE_BITS, d)),
                None => None,
            }
        } else if p0.len() == 0 {
            Some((ZERO_BITS, 0))
        } else {
            match coef_parse(p0) {
                Some(c) => Some((c, 0)),
                None => None,
            }
        }
    } else {
        None
    }
}

} // verus!
