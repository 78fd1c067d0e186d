use computor::coef::{ONE_BITS, TWO_BITS, FOUR_BITS, ZERO_BITS};
use computor::sparse::trim_trailing_zeros;
use computor::{parse, parse_indeterminate, parse_monomial, solve_equation, ParseError, Poly,
    RootOutcome};

fn bits_of(values: &[f32]) -> Vec<u32> {
    let mut out: Vec<u32> = Vec::new();
    for v in values {
        out.push(v.to_bits());
    }
    out
}

fn floats_of(bits: &[u32]) -> Vec<f32> {
    let mut out: Vec<f32> = Vec::new();
    for b in bits {
        out.push(f32::from_bits(*b));
    }
    out
}

fn equivalent_solution(left: Vec<f32>, right: Vec<f32>) -> bool {
    if left.len() != right.len() {
        return false;
    }
    let wrong = left.iter().zip(right).filter(|&(a, b)| (a - b).abs() > 0.00001).count();
    wrong == 0
}

#[test]
fn error_when_no_equal_sign() {
    let no_equal_sign = "5 * X^0 + 4 * X^1 - 9.3 * X^2";
    assert!(parse(no_equal_sign).is_err());
}

#[test]
fn parse_basic_monomial() {
    let basic_monomial = "5*X^0";
    assert_eq!(parse_monomial(basic_monomial), Ok((5.0f32.to_bits(), 0)));
}

#[test]
fn test_parse_equation() {
    let line = "8 * X^0 - 6 * X^1 + 0 * X^2 - 5.6 * X^3 = 3 * X^0";
    let simplified = parse(line);
    let answer: Vec<u32> = bits_of(&[5.0, -6.0, 0.0, -5.6]);
    assert_eq!(simplified, Ok(answer));
}

#[test]
fn test_parse_bonus() {
    let line = "5 + 4 * X + X^2= X^2";
    let simplified = parse(line);
    let answer: Vec<u32> = bits_of(&[5.0, 4.0]);
    assert_eq!(simplified, Ok(answer));
}

#[test]
fn test_poly() {
    let line = "5 * X^0 + 4 * X^1 - 9.3 * X^2 = 1 * X^0";
    let coefficients: Vec<u32> = bits_of(&[4.0, 4.0, -9.3]);
    let poly = Poly::new(line).unwrap();
    assert_eq!(poly.coefficients(), &coefficients);
    assert_eq!(poly.get_degree(), 2);
}

#[test]
fn test_solve() {
    let line = "5 * X^0 + 4 * X^1 - 9.3 * X^2 = 1 * X^0";
    let poly = Poly::new(line).unwrap();
    let solutions = poly.solve().unwrap();
    assert!(equivalent_solution(floats_of(&solutions), vec![-0.475131, 0.905239]));

    let line = "5 * X^0 + 4 * X^1 = 4 * X^0";
    let poly = Poly::new(line).unwrap();
    let solutions = poly.solve().unwrap();
    assert!(equivalent_solution(floats_of(&solutions), vec![-0.25]));

    let line = "8 * X^0 - 6 * X^1 + 0 * X^2 - 5.6 * X^3 = 3 * X^0";
    let poly = Poly::new(line).unwrap();
    let solutions = poly.solve();
    assert_eq!(solutions, None);

    let line = "5 + 4 * X + X^2= X^2";
    let poly = Poly::new(line).unwrap();
    let solutions = poly.solve().unwrap();
    assert!(equivalent_solution(floats_of(&solutions), vec![-1.25]));

    let line = "42 * X^0= 42 * X^0";
    let poly = Poly::new(line).unwrap();
    let solutions = poly.solve();
    assert_eq!(solutions, None);

    let line = "3 = 0";
    let poly = Poly::new(line).unwrap();
    let solutions = poly.solve();
    assert_eq!(solutions, None);
}

#[test]
fn coefficient_bit_constants_match() {
    assert_eq!(ZERO_BITS, 0.0f32.to_bits());
    assert_eq!(ONE_BITS, 1.0f32.to_bits());
    assert_eq!(TWO_BITS, 2.0f32.to_bits());
    assert_eq!(FOUR_BITS, 4.0f32.to_bits());
}

#[test]
fn pipeline_is_deterministic() {
    let line = "8 * X^0 - 6 * X^1 + 0 * X^2 - 5.6 * X^3 = 3 * X^0";
    assert_eq!(parse(line), parse(line));
    let line = "1=2=3";
    assert_eq!(parse(line), parse(line));
}

#[test]
fn trim_is_idempotent() {
    let v = bits_of(&[1.0, 0.0, 2.0, 0.0, 0.0]);
    let once = trim_trailing_zeros(v);
    assert_eq!(once, bits_of(&[1.0, 0.0, 2.0]));
    let twice = trim_trailing_zeros(once.clone());
    assert_eq!(twice, once);
}

#[test]
fn trim_removes_negative_zero() {
    let v = bits_of(&[3.0, -0.0]);
    assert_eq!(trim_trailing_zeros(v), bits_of(&[3.0]));
}

#[test]
fn result_never_ends_in_zero() {
    let reduced = parse("0 * X^0 + 1 * X^1 + 0 * X^3 = 0").unwrap();
    assert_eq!(reduced, bits_of(&[0.0, 1.0]));
    assert!(f32::from_bits(*reduced.last().unwrap()) != 0.0);
}

#[test]
fn reducer_sign_symmetry() {
    // reducing A = 0 equals reducing 0 = A with every term negated
    let a = parse("5 * X^0 + 3 * X^1 - 2 * X^2 = 0").unwrap();
    let b = parse("0 = 5 * X^0 + 3 * X^1 - 2 * X^2").unwrap();
    assert_eq!(a.len(), b.len());
    for (x, y) in floats_of(&a).iter().zip(floats_of(&b)) {
        assert_eq!(*x, -y);
    }
    // and reducing 0 = -A gives the same values as reducing A = 0
    let c = parse("0 = -5 * X^0 - 3 * X^1 + 2 * X^2").unwrap();
    assert_eq!(floats_of(&a), floats_of(&c));
}

#[test]
fn equal_sign_boundaries() {
    assert_eq!(parse("42"), Err(ParseError::EqualSignError));
    assert_eq!(parse("1 = 2 = 3"), Err(ParseError::EqualSignError));
    assert_eq!(solve_equation(""), Err(ParseError::EqualSignError));
}

#[test]
fn malformed_terms_fail() {
    assert_eq!(parse("X^-1 = 0"), Err(ParseError::ParseNumError));
    assert_eq!(parse("2X = 0"), Err(ParseError::ParseNumError));
    assert_eq!(parse("1 * 2 * 3 = 0"), Err(ParseError::ParseNumError));
    assert_eq!(parse_monomial("2X"), Err(ParseError::ParseNumError));
}

#[test]
fn indeterminate_grammar() {
    assert_eq!(parse_indeterminate("X"), Ok(1));
    assert_eq!(parse_indeterminate("X^0"), Ok(0));
    assert_eq!(parse_indeterminate("X^2147483647"), Ok(2147483647));
    assert_eq!(parse_indeterminate("X^2147483648"), Err(ParseError::ParseNumError));
    assert_eq!(parse_indeterminate("X^-1"), Err(ParseError::ParseNumError));
    assert_eq!(parse_indeterminate("Y"), Err(ParseError::ParseNumError));
}

#[test]
fn duplicate_degrees_are_summed() {
    let reduced = parse("1 * X^0 + 2 * X^0 = 0").unwrap();
    assert_eq!(reduced, bits_of(&[3.0]));
}

#[test]
fn constants_are_subtracted() {
    let reduced = parse("5 = 2").unwrap();
    assert_eq!(reduced, bits_of(&[3.0]));
}

#[test]
fn quadratic_exact_roots() {
    // X^2 = 4 has the exact roots 2 and -2, the +sqrt one first
    let outcome = solve_equation("X^2 = 4").unwrap();
    assert_eq!(outcome, RootOutcome::TwoRoots(2.0f32.to_bits(), (-2.0f32).to_bits()));
}

#[test]
fn quadratic_zero_discriminant() {
    // X^2 + 2X + 1 = 0 has the single exact root -1
    let outcome = solve_equation("1 * X^0 + 2 * X^1 + 1 * X^2 = 0").unwrap();
    assert_eq!(outcome, RootOutcome::OneRoot((-1.0f32).to_bits()));
}

#[test]
fn quadratic_negative_discriminant() {
    let outcome = solve_equation("1 * X^0 + 1 * X^2 = 0").unwrap();
    assert_eq!(outcome, RootOutcome::NoRealSolution);
}

#[test]
fn linear_exact_root() {
    let outcome = solve_equation("5 * X^0 + 4 * X^1 = 4 * X^0").unwrap();
    assert_eq!(outcome, RootOutcome::OneRoot((-0.25f32).to_bits()));
}

#[test]
fn outcome_boundaries() {
    assert_eq!(solve_equation("42 * X^0 = 42 * X^0"), Ok(RootOutcome::InfiniteSolutions));
    assert_eq!(solve_equation("="), Ok(RootOutcome::InfiniteSolutions));
    assert_eq!(solve_equation("3 = 0"), Ok(RootOutcome::NoRealSolution));
    assert_eq!(
        solve_equation("8 * X^0 - 6 * X^1 + 0 * X^2 - 5.6 * X^3 = 3 * X^0"),
        Ok(RootOutcome::DegreeTooHigh)
    );
    assert_eq!(solve_equation("5 * X^0 + 4 * X^1 - 9.3 * X^2"), Err(ParseError::EqualSignError));
}

#[test]
fn empty_polynomial_reduces_to_nothing() {
    let reduced = parse("42 * X^0 = 42 * X^0").unwrap();
    assert_eq!(reduced, Vec::<u32>::new());
    let poly = Poly::new("42 * X^0 = 42 * X^0").unwrap();
    assert_eq!(poly.get_degree(), -1);
    assert_eq!(poly.solve(), None);
}

#[test]
fn gaps_are_zero_filled() {
    let reduced = parse("7 * X^3 = 1 * X^0").unwrap();
    assert_eq!(reduced, bits_of(&[-1.0, 0.0, 0.0, 7.0]));
}
