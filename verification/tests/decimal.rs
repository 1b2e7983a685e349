use horner_solver::decimal::{append_decimal, append_digits};

fn digits_of(n: u64) -> String {
    let mut text = String::new();
    append_digits(&mut text, n);
    text
}

fn decimal_of(n: i64) -> String {
    let mut text = String::new();
    append_decimal(&mut text, n);
    text
}

#[test]
fn digits_of_small_numbers() {
    assert_eq!(digits_of(0), "0");
    assert_eq!(digits_of(7), "7");
    assert_eq!(digits_of(9), "9");
    assert_eq!(digits_of(10), "10");
    assert_eq!(digits_of(11), "11");
    assert_eq!(digits_of(100), "100");
    assert_eq!(digits_of(1234567890), "1234567890");
}

#[test]
fn digits_agree_with_the_standard_library() {
    for n in 0u64..=2000 {
        assert_eq!(digits_of(n), format!("{}", n));
    }
    let mut n: u64 = 1;
    for _ in 0..63 {
        assert_eq!(digits_of(n), format!("{}", n));
        assert_eq!(digits_of(n - 1), format!("{}", n - 1));
        assert_eq!(digits_of(n + 1), format!("{}", n + 1));
        n *= 2;
    }
    assert_eq!(digits_of(u64::MAX), "18446744073709551615");
}

#[test]
fn decimal_puts_a_minus_before_negative_numbers() {
    assert_eq!(decimal_of(0), "0");
    assert_eq!(decimal_of(-1), "-1");
    assert_eq!(decimal_of(1), "1");
    assert_eq!(decimal_of(-120), "-120");
    assert_eq!(decimal_of(i64::MAX), "9223372036854775807");
    assert_eq!(decimal_of(i64::MIN), "-9223372036854775808");
}

#[test]
fn appending_keeps_what_is_there() {
    let mut text = String::from("x^");
    append_digits(&mut text, 42);
    assert_eq!(text, "x^42");
    append_decimal(&mut text, -7);
    assert_eq!(text, "x^42-7");
}
