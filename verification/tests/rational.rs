use horner_solver::number_theory::{greatest_common_divisor, least_common_multiple, magnitude};
use horner_solver::rational::{ArithmeticOverflow, PositiveU64, Rational};

fn positive(value: u64) -> PositiveU64 {
    PositiveU64::new(value).unwrap()
}

fn rational(numerator: i64, denominator: u64) -> Rational {
    Rational::new(numerator, positive(denominator))
}

#[test]
fn positive_rejects_zero() {
    assert!(PositiveU64::new(0).is_none());
    assert_eq!(PositiveU64::new(1).unwrap().get(), 1);
    assert_eq!(PositiveU64::new(u64::MAX).unwrap().get(), u64::MAX);
}

#[test]
fn greatest_common_divisor_of_known_pairs() {
    assert_eq!(greatest_common_divisor(12, 18), 6);
    assert_eq!(greatest_common_divisor(18, 12), 6);
    assert_eq!(greatest_common_divisor(17, 5), 1);
    assert_eq!(greatest_common_divisor(0, 9), 9);
    assert_eq!(greatest_common_divisor(9, 0), 9);
    assert_eq!(greatest_common_divisor(0, 0), 0);
    assert_eq!(greatest_common_divisor(2024, 748), 44);
    assert_eq!(greatest_common_divisor(u64::MAX, u64::MAX), u64::MAX);
}

#[test]
fn least_common_multiple_of_known_pairs() {
    assert_eq!(least_common_multiple(4, 6), Some(12));
    assert_eq!(least_common_multiple(6, 4), Some(12));
    assert_eq!(least_common_multiple(7, 3), Some(21));
    assert_eq!(least_common_multiple(2, 4), Some(4));
    assert_eq!(least_common_multiple(0, 5), Some(0));
    assert_eq!(least_common_multiple(0, 0), Some(0));
    assert_eq!(least_common_multiple(u64::MAX, u64::MAX), Some(u64::MAX));
}

#[test]
fn least_common_multiple_refuses_what_does_not_fit() {
    assert_eq!(least_common_multiple(u64::MAX, u64::MAX - 1), None);
    assert_eq!(least_common_multiple(1 << 63, 3), None);
    assert_eq!(least_common_multiple(1 << 32, (1 << 32) + 1), None);
}

#[test]
fn magnitude_of_both_signs() {
    assert_eq!(magnitude(0), 0);
    assert_eq!(magnitude(5), 5);
    assert_eq!(magnitude(-5), 5);
    assert_eq!(magnitude(i64::MAX), 9223372036854775807);
    assert_eq!(magnitude(i64::MIN), 9223372036854775808);
}

#[test]
fn new_keeps_the_pair_as_given() {
    assert_eq!(rational(2, 4).to_string(), "2/4");
    assert_eq!(rational(-6, 3).to_string(), "-6/3");
    assert_eq!(rational(7, 1).to_string(), "7");
}

#[test]
fn new_holds_zero_over_one() {
    assert_eq!(rational(0, 5).to_string(), "0");
    assert_eq!(rational(0, u64::MAX).to_string(), "0");
    assert_eq!(rational(0, 5), Rational::zero());
}

#[test]
fn new_normalize_reduces() {
    assert_eq!(Rational::new_normalize(2, positive(4)).to_string(), "1/2");
    assert_eq!(Rational::new_normalize(-6, positive(3)).to_string(), "-2");
    assert_eq!(Rational::new_normalize(0, positive(9)).to_string(), "0");
    assert_eq!(Rational::new_normalize(3, positive(7)).to_string(), "3/7");
    assert_eq!(Rational::new_normalize(-12, positive(18)).to_string(), "-2/3");
}

#[test]
fn new_normalize_at_the_limits() {
    assert_eq!(Rational::new_normalize(i64::MIN, positive(1 << 63)).to_string(), "-1");
    assert_eq!(
        Rational::new_normalize(i64::MIN, positive(1)).to_string(),
        "-9223372036854775808"
    );
    assert_eq!(Rational::new_normalize(i64::MIN, positive(2)).to_string(), "-4611686018427387904");
    assert_eq!(
        Rational::new_normalize(i64::MAX, positive(u64::MAX)).to_string(),
        "9223372036854775807/18446744073709551615"
    );
    assert_eq!(Rational::new_normalize(1 << 62, positive(1 << 63)).to_string(), "1/2");
}

#[test]
fn normalize_reduces_in_place() {
    let mut r = rational(4, 8);
    assert_eq!(r.to_string(), "4/8");
    r.normalize();
    assert_eq!(r.to_string(), "1/2");
}

#[test]
fn normalize_is_idempotent() {
    let mut once = rational(30, 42);
    once.normalize();
    let mut twice = once;
    twice.normalize();
    assert_eq!(once.to_string(), "5/7");
    assert_eq!(twice.to_string(), "5/7");
    assert_eq!(format!("{:?}", once), format!("{:?}", twice));
    assert_eq!(once, twice);
}

#[test]
fn into_normal_leaves_its_argument() {
    let r = rational(-10, 4);
    let n = r.into_normal();
    assert_eq!(r.to_string(), "-10/4");
    assert_eq!(n.to_string(), "-5/2");
    assert_eq!(format!("{:?}", n.into_normal()), format!("{:?}", n));
}

#[test]
fn equality_ignores_the_representation() {
    assert_eq!(rational(2, 4), rational(1, 2));
    assert_eq!(rational(1, 2), rational(2, 4));
    assert!(rational(2, 4).equals(&rational(1, 2)));
    assert_ne!(rational(1, 2), rational(1, 3));
    assert_ne!(rational(1, 2), rational(-1, 2));
    assert!(!rational(1, 2).equals(&rational(2, 1)));
}

#[test]
fn equality_is_an_equivalence() {
    let a = rational(6, 8);
    let b = rational(3, 4);
    let c = rational(-9, 12);
    let d = rational(9, 12);
    assert!(a.equals(&a));
    assert!(a.equals(&b) && b.equals(&a));
    assert!(a.equals(&b) && b.equals(&d) && a.equals(&d));
    assert!(!a.equals(&c) && !c.equals(&a));
}

#[test]
fn equality_is_invariant_under_scaling() {
    for (n, d) in [(1i64, 2u64), (-3, 7), (0, 4), (10, 5), (-8, 12)] {
        for k in [1u64, 2, 3, 10, 1000] {
            assert_eq!(rational(n * k as i64, d * k), rational(n, d));
        }
    }
}

#[test]
fn add_two_thirds_and_three_sixths() {
    let lhs = rational(2, 3);
    let rhs = rational(3, 6);
    assert_eq!(Ok(rational(7, 6)), lhs + rhs);
    assert_eq!(lhs.add(rhs), Ok(rational(7, 6)));
    assert_eq!(lhs.add(rhs).unwrap().to_string(), "7/6");
}

#[test]
fn multiply_two_thirds_and_three_sixths() {
    let lhs = rational(2, 3);
    let rhs = rational(3, 6);
    assert_eq!(Ok(rational(1, 3)), lhs * rhs);
    assert_eq!(lhs.multiply(rhs), Ok(rational(1, 3)));
    assert_eq!(lhs.multiply(rhs).unwrap().to_string(), "1/3");
}

#[test]
fn operators_agree_with_the_methods() {
    let values = [
        rational(2, 3),
        rational(-5, 4),
        rational(0, 1),
        rational(6, 8),
        Rational::new_from_int(i64::MAX),
        rational(1, u64::MAX),
    ];
    for a in values {
        for b in values {
            assert_eq!(a + b, a.add(b));
            assert_eq!(a * b, a.multiply(b));
            assert_eq!(a == b, a.equals(&b));
            if let (Ok(x), Ok(y)) = (a + b, a.add(b)) {
                assert_eq!(format!("{:?}", x), format!("{:?}", y));
            }
        }
    }
    assert_eq!(
        Rational::new_from_int(i64::MAX) + Rational::new_from_int(1),
        Err(ArithmeticOverflow)
    );
    assert_eq!(rational(1, 1 << 32) * rational(1, 1 << 32), Err(ArithmeticOverflow));
}

#[test]
fn add_uses_the_least_common_denominator() {
    // Over the product of the denominators the numerator would not fit.
    let a = rational(i64::MAX - 1, 1 << 40);
    let b = rational(1, 1 << 40);
    assert_eq!(a.add(b).unwrap().to_string(), "9223372036854775807/1099511627776");
    assert_eq!(rational(1, 6).add(rational(1, 4)).unwrap().to_string(), "5/12");
    assert_eq!(rational(1, 4).add(rational(1, 4)).unwrap().to_string(), "1/2");
    assert_eq!(rational(1, 2).add(rational(-1, 2)).unwrap().to_string(), "0");
}

#[test]
fn add_and_multiply_are_commutative() {
    let values = [rational(2, 3), rational(-5, 4), rational(0, 1), rational(7, 1), rational(6, 8)];
    for a in values {
        for b in values {
            assert_eq!(a.add(b), b.add(a));
            assert_eq!(a.multiply(b), b.multiply(a));
            assert_eq!(
                a.add(b).unwrap().to_string(),
                b.add(a).unwrap().to_string()
            );
            assert_eq!(
                a.multiply(b).unwrap().to_string(),
                b.multiply(a).unwrap().to_string()
            );
        }
    }
}

#[test]
fn add_is_associative() {
    let values = [rational(2, 3), rational(-5, 4), rational(1, 6), rational(7, 1), rational(6, 8)];
    for a in values {
        for b in values {
            for c in values {
                let left = a.add(b).unwrap().add(c).unwrap();
                let right = a.add(b.add(c).unwrap()).unwrap();
                assert_eq!(left, right);
                assert_eq!(left.to_string(), right.to_string());
            }
        }
    }
}

#[test]
fn results_are_in_lowest_terms() {
    assert_eq!(rational(2, 4).add(rational(2, 4)).unwrap().to_string(), "1");
    assert_eq!(rational(2, 4).multiply(rational(2, 4)).unwrap().to_string(), "1/4");
    assert_eq!(rational(3, 9).multiply(rational(9, 3)).unwrap().to_string(), "1");
    assert_eq!(rational(-4, 6).multiply(rational(3, 2)).unwrap().to_string(), "-1");
}

#[test]
fn multiply_refuses_numerators_that_overflow() {
    let big = Rational::new_from_int(1 << 32);
    assert_eq!(big.multiply(big), Err(ArithmeticOverflow));
    assert_eq!(
        Rational::new_from_int(i64::MIN).multiply(Rational::new_from_int(-1)),
        Err(ArithmeticOverflow)
    );
    assert_eq!(
        Rational::new_from_int(1 << 31).multiply(Rational::new_from_int(1 << 31)),
        Ok(Rational::new_from_int(1 << 62))
    );
}

#[test]
fn multiply_refuses_denominators_that_overflow() {
    let small = rational(1, 1 << 32);
    assert_eq!(small.multiply(small), Err(ArithmeticOverflow));
    assert_eq!(
        rational(1, 1 << 31).multiply(rational(1, 1 << 32)).unwrap().to_string(),
        "1/9223372036854775808"
    );
}

#[test]
fn add_refuses_a_numerator_that_overflows() {
    let max = Rational::new_from_int(i64::MAX);
    assert_eq!(max.add(Rational::new_from_int(1)), Err(ArithmeticOverflow));
    assert_eq!(
        Rational::new_from_int(i64::MIN).add(Rational::new_from_int(-1)),
        Err(ArithmeticOverflow)
    );
    assert_eq!(max.add(Rational::new_from_int(-1)), Ok(Rational::new_from_int(i64::MAX - 1)));
    // The numerator over the common denominator is judged before reduction.
    assert_eq!(rational(i64::MAX, 2).add(rational(i64::MAX, 2)), Err(ArithmeticOverflow));
}

#[test]
fn add_refuses_a_denominator_that_overflows() {
    let a = rational(1, u64::MAX);
    let b = rational(1, u64::MAX - 1);
    assert_eq!(a.add(b), Err(ArithmeticOverflow));
    assert_eq!(rational(1, 1 << 63).add(rational(1, 3)), Err(ArithmeticOverflow));
}

#[test]
fn integers_display_as_decimal() {
    let values = [
        0i64,
        1,
        -1,
        9,
        10,
        -10,
        99,
        100,
        12345,
        -67890,
        1_000_000_007,
        i64::MAX,
        i64::MIN,
        i64::MIN + 1,
    ];
    for n in values {
        assert_eq!(Rational::new_from_int(n).to_string(), format!("{}", n));
    }
    for n in -1000i64..=1000 {
        assert_eq!(Rational::new_from_int(n).to_string(), format!("{}", n));
    }
}

#[test]
fn fractions_display_with_a_slash() {
    assert_eq!(rational(3, 4).to_string(), "3/4");
    assert_eq!(rational(-3, 4).to_string(), "-3/4");
    assert_eq!(rational(5, 1).to_string(), "5");
    assert_eq!(rational(1, u64::MAX).to_string(), "1/18446744073709551615");
    assert_eq!(rational(i64::MIN, 10).to_string(), "-9223372036854775808/10");
}

#[test]
fn zero_is_zero() {
    assert_eq!(Rational::zero().to_string(), "0");
    assert_eq!(Rational::zero(), Rational::new_from_int(0));
    assert_eq!(Rational::zero().add(rational(3, 5)), Ok(rational(3, 5)));
    assert_eq!(Rational::zero().multiply(rational(3, 5)), Ok(Rational::zero()));
}
