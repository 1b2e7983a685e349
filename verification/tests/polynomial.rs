use horner_solver::polynomial::{divisors, Polynomial};
use horner_solver::rational::{ArithmeticOverflow, PositiveU64, Rational};
use std::collections::HashSet;

fn fraction(numerator: i64, denominator: u64) -> Rational {
    Rational::new(numerator, PositiveU64::new(denominator).unwrap())
}

fn texts(values: &[Rational]) -> Vec<String> {
    let mut out: Vec<String> = values.iter().map(|r| r.to_string()).collect();
    out.sort();
    out
}

#[test]
fn empty_coefficients_give_the_zero_polynomial() {
    let p = Polynomial::new(vec![]);
    assert_eq!(p.degree(), 1);
    assert_eq!(p.to_string(), "0");
    assert_eq!(p.eval(Rational::new_from_int(17)), Ok(Rational::zero()));
}

#[test]
fn degree_counts_the_coefficients() {
    assert_eq!(Polynomial::new(vec![5]).degree(), 1);
    assert_eq!(Polynomial::new(vec![6, -7, 0, 1]).degree(), 4);
    assert_eq!(Polynomial::new(vec![1, 0, 0]).degree(), 3);
}

#[test]
fn eval_cubic_at_one_is_zero() {
    let polynomial = Polynomial::new(vec![6, -7, 0, 1]);
    assert_eq!(Ok(Rational::zero()), polynomial.eval(Rational::new_from_int(1)));
}

#[test]
fn eval_gives_exact_values() {
    let polynomial = Polynomial::new(vec![6, -7, 0, 1]);
    assert_eq!(polynomial.eval(Rational::new_from_int(0)), Ok(Rational::new_from_int(6)));
    assert_eq!(polynomial.eval(Rational::new_from_int(2)), Ok(Rational::zero()));
    assert_eq!(polynomial.eval(Rational::new_from_int(-3)), Ok(Rational::zero()));
    assert_eq!(polynomial.eval(Rational::new_from_int(3)), Ok(Rational::new_from_int(12)));
    // (1/2)^3 - 7/2 + 6 = 21/8
    assert_eq!(polynomial.eval(fraction(1, 2)).unwrap().to_string(), "21/8");
    // (-2/3)^3 + 14/3 + 6 = 280/27
    assert_eq!(polynomial.eval(fraction(-2, 3)).unwrap().to_string(), "280/27");
    // An unreduced argument gives the same value.
    assert_eq!(polynomial.eval(fraction(2, 4)).unwrap().to_string(), "21/8");
}

#[test]
fn eval_of_the_zero_polynomial_is_zero() {
    let arguments = [
        Rational::zero(),
        Rational::new_from_int(1),
        Rational::new_from_int(i64::MAX),
        Rational::new_from_int(i64::MIN),
        fraction(1, u64::MAX),
        fraction(i64::MIN, u64::MAX),
        fraction(-22, 7),
    ];
    for coefficients in [vec![], vec![0], vec![0, 0], vec![0, 0, 0, 0, 0]] {
        let zero = Polynomial::new(coefficients);
        for x in arguments {
            let value = zero.eval(x).unwrap();
            assert_eq!(value, Rational::zero());
            assert_eq!(value.to_string(), "0");
        }
    }
}

#[test]
fn eval_refuses_what_overflows() {
    let square = Polynomial::new(vec![0, 0, 1]);
    assert_eq!(square.eval(Rational::new_from_int(1 << 32)), Err(ArithmeticOverflow));
    assert_eq!(square.eval(fraction(1, 1 << 32)), Err(ArithmeticOverflow));
    assert_eq!(
        square.eval(Rational::new_from_int(1 << 31)),
        Ok(Rational::new_from_int(1 << 62))
    );
    let shifted = Polynomial::new(vec![1, 1]);
    assert_eq!(shifted.eval(Rational::new_from_int(i64::MAX)), Err(ArithmeticOverflow));
}

#[test]
fn divisors_by_trial() {
    assert_eq!(divisors(0), Vec::<u64>::new());
    assert_eq!(divisors(1), vec![1]);
    assert_eq!(divisors(2), vec![1, 2]);
    assert_eq!(divisors(6), vec![1, 2, 3, 6]);
    assert_eq!(divisors(12), vec![1, 2, 3, 4, 6, 12]);
    assert_eq!(divisors(13), vec![1, 13]);
    assert_eq!(divisors(36), vec![1, 2, 3, 4, 6, 9, 12, 18, 36]);
}

#[test]
fn candidates_of_the_cubic() {
    let polynomial = Polynomial::new(vec![6, -7, 0, 1]);
    let found = polynomial.candidates().unwrap();
    assert_eq!(texts(&found), vec!["-1", "-2", "-3", "-6", "1", "2", "3", "6"]);
}

#[test]
fn candidates_come_in_both_signs() {
    let polynomial = Polynomial::new(vec![-10, 3, 4]);
    let found = polynomial.candidates().unwrap();
    for p in [1i64, 2, 5, 10] {
        for q in [1u64, 2, 4] {
            let positive = Rational::new_normalize(p, PositiveU64::new(q).unwrap());
            let negative = Rational::new_normalize(-p, PositiveU64::new(q).unwrap());
            assert!(found.iter().any(|c| c.to_string() == positive.to_string()));
            assert!(found.iter().any(|c| c.to_string() == negative.to_string()));
        }
    }
    assert_eq!(
        texts(&found),
        vec![
            "-1", "-1/2", "-1/4", "-10", "-2", "-5", "-5/2", "-5/4", "1", "1/2", "1/4", "10", "2",
            "5", "5/2", "5/4"
        ]
    );
}

#[test]
fn candidates_hold_no_value_twice() {
    // 2/2 and 1/1, 4/2 and 2/1, 4/4 and 1/1 and so on collapse.
    let polynomial = Polynomial::new(vec![4, 0, 4]);
    let found = polynomial.candidates().unwrap();
    assert_eq!(
        texts(&found),
        vec!["-1", "-1/2", "-1/4", "-2", "-4", "1", "1/2", "1/4", "2", "4"]
    );
    for (i, a) in found.iter().enumerate() {
        for (j, b) in found.iter().enumerate() {
            assert_eq!(i == j, a == b);
        }
    }
}

#[test]
fn candidates_of_a_zero_end_are_none() {
    assert!(Polynomial::new(vec![0, 1]).candidates().unwrap().is_empty());
    assert!(Polynomial::new(vec![1, 0]).candidates().unwrap().is_empty());
    assert!(Polynomial::new(vec![0]).candidates().unwrap().is_empty());
    assert!(Polynomial::new(vec![i64::MIN, 0]).candidates().unwrap().is_empty());
}

#[test]
fn candidates_refuse_the_least_constant_term() {
    assert_eq!(
        Polynomial::new(vec![i64::MIN, 1]).candidates().err(),
        Some(ArithmeticOverflow)
    );
    assert_eq!(
        Polynomial::new(vec![i64::MIN, 1]).find_rational_roots().err(),
        Some(ArithmeticOverflow)
    );
}

#[test]
fn find_rational_roots_of_the_cubic() {
    let polynomial = Polynomial::new(vec![6, -7, 0, 1]);
    let expected_roots = HashSet::from([
        Rational::new_from_int(1),
        Rational::new_from_int(2),
        Rational::new_from_int(-3),
    ]);
    let roots = polynomial.find_rational_roots().unwrap();
    assert_eq!(roots.len(), 3);
    assert_eq!(expected_roots, roots.iter().copied().collect::<HashSet<Rational>>());
    assert_eq!(texts(&roots), vec!["-3", "1", "2"]);
}

#[test]
fn find_rational_roots_that_are_fractions() {
    // (2x - 1)(3x + 2) = 6x^2 + x - 2
    let polynomial = Polynomial::new(vec![-2, 1, 6]);
    let roots = polynomial.find_rational_roots().unwrap();
    assert_eq!(texts(&roots), vec!["-2/3", "1/2"]);
    // (2x - 1)^2 = 4x^2 - 4x + 1: a double root is found once.
    let square = Polynomial::new(vec![1, -4, 4]);
    assert_eq!(texts(&square.find_rational_roots().unwrap()), vec!["1/2"]);
}

#[test]
fn find_rational_roots_where_there_are_none() {
    // x^2 - 2 and x^2 + 1
    assert!(Polynomial::new(vec![-2, 0, 1]).find_rational_roots().unwrap().is_empty());
    assert!(Polynomial::new(vec![1, 0, 1]).find_rational_roots().unwrap().is_empty());
    assert!(Polynomial::new(vec![5]).find_rational_roots().unwrap().is_empty());
}

#[test]
fn find_rational_roots_with_a_zero_end() {
    // x has the root 0, but a constant term of zero has no divisors.
    assert!(Polynomial::new(vec![0, 1]).find_rational_roots().unwrap().is_empty());
    assert!(Polynomial::new(vec![0, -2, 1]).find_rational_roots().unwrap().is_empty());
    // A leading coefficient of zero has none either.
    assert!(Polynomial::new(vec![-1, 1, 0]).find_rational_roots().unwrap().is_empty());
    assert!(Polynomial::new(vec![0]).find_rational_roots().unwrap().is_empty());
    assert!(Polynomial::new(vec![]).find_rational_roots().unwrap().is_empty());
}

#[test]
fn find_rational_roots_refuses_what_overflows() {
    // x^70 + 2: the candidate 2 to the power 70 does not fit.
    let mut coefficients = vec![0i64; 71];
    coefficients[0] = 2;
    coefficients[70] = 1;
    let polynomial = Polynomial::new(coefficients);
    assert_eq!(polynomial.candidates().unwrap().len(), 4);
    assert_eq!(polynomial.find_rational_roots().err(), Some(ArithmeticOverflow));
    // x^62 - 1 stays within bounds at its candidates 1 and -1.
    let mut coefficients = vec![0i64; 63];
    coefficients[0] = -1;
    coefficients[62] = 1;
    let polynomial = Polynomial::new(coefficients);
    assert_eq!(texts(&polynomial.find_rational_roots().unwrap()), vec!["-1", "1"]);
}

#[test]
fn display_of_the_cubic() {
    let polynomial = Polynomial::new(vec![6, -7, 0, 1]);
    assert_eq!(polynomial.to_string(), "6 - 7x^1 + x^3");
}

#[test]
fn display_of_other_polynomials() {
    assert_eq!(Polynomial::new(vec![0]).to_string(), "0");
    assert_eq!(Polynomial::new(vec![-4]).to_string(), "-4");
    assert_eq!(Polynomial::new(vec![0, 0, 0]).to_string(), "0");
    assert_eq!(Polynomial::new(vec![0, 1]).to_string(), "0 + x^1");
    assert_eq!(Polynomial::new(vec![0, -1]).to_string(), "0 - x^1");
    assert_eq!(Polynomial::new(vec![-1, 2, -3, 4]).to_string(), "-1 + 2x^1 - 3x^2 + 4x^3");
    assert_eq!(Polynomial::new(vec![1, 0, 0, 0, 0, 0, 0, 0, 0, 0, 10]).to_string(), "1 + 10x^10");
    assert_eq!(
        Polynomial::new(vec![i64::MIN, i64::MIN, i64::MAX]).to_string(),
        "-9223372036854775808 - 9223372036854775808x^1 + 9223372036854775807x^2"
    );
}

#[test]
fn find_rational_roots_misses_no_root() {
    let polynomials = [
        vec![-2, 1, 6],
        vec![6, -7, 0, 1],
        vec![1, -4, 4],
        vec![-2, 0, 1],
        vec![12, -4, -3, 1],
        vec![-15, 2, 8],
    ];
    for coefficients in polynomials {
        let polynomial = Polynomial::new(coefficients);
        let roots = polynomial.find_rational_roots().unwrap();
        for p in -20i64..=20 {
            for q in 1u64..=20 {
                let x = fraction(p, q);
                let is_root = polynomial.eval(x).unwrap() == Rational::zero();
                let listed = roots.iter().any(|r| *r == x);
                assert_eq!(is_root, listed);
            }
        }
    }
}
