//! What Horner's rule computes, and the rational root theorem.
//!
//! [`value`] is the value of a polynomial at a fraction, written out as the
//! sum of its terms. Wherever Horner's rule is not refused it gives that value
//! in lowest terms, and every fraction in lowest terms at which the value is
//! zero is one of the candidates that the search for roots tries. Everything
//! in this module is ghost code.
use crate::fraction::{
    lemma_cross_sum_congruent, lemma_product_value, lemma_raw_product_congruent,
    lemma_reduced_fixpoint, lemma_reduced_is_reduced, lemma_same_value_transitive,
    lemma_sum_value, Fraction,
};
use crate::number_theory::{
    lemma_coprime_cancels_power, lemma_divides_magnitude, lemma_divisor_bound,
    lemma_gcd_symmetric, lemma_gcd_with_one, lemma_mod_linear, lemma_multiple_mod,
    lemma_pow_unfold,
};
use crate::polynomial::{
    candidate, horner, horner_from, is_candidate, is_divisor, root_set, search_defined, value,
    value_sum, value_term,
};
use vstd::arithmetic::power::{lemma0_pow, lemma_pow0, lemma_pow_positive, pow};
use vstd::math::abs;
use vstd::prelude::*;

verus! {

/// What Horner's rule has gathered of the coefficients from index `i` up, in
/// whole numbers: the numerator over the denominator `q^(n - i)`.
spec fn suffix_sum(c: Seq<i64>, p: int, q: int, i: int) -> int
    decreases c.len() - i,
{
    if i >= c.len() {
        0
    } else {
        suffix_sum(c, p, q, i + 1) * p + c[i] * pow(q, (c.len() - i) as nat)
    }
}

/// Horner's rule from index `i` up gives, in lowest terms, the fraction of
/// [`suffix_sum`] over `q^(n - i)`.
proof fn lemma_horner_suffix(c: Seq<i64>, x: Fraction, i: int)
    requires
        x.valid(),
        0 <= i <= c.len(),
        horner_from(c, x, i) is Some,
    ensures
        horner_from(c, x, i).unwrap().is_reduced(),
        horner_from(c, x, i).unwrap().same_value(
            Fraction {
                num: suffix_sum(c, x.num, x.den, i),
                den: pow(x.den, (c.len() - i) as nat),
            },
        ),
    decreases c.len() - i,
{
    let (p, q) = (x.num, x.den);
    let n = c.len() as int;
    if i == n {
        lemma_pow0(q);
        lemma_gcd_with_one(0);
    } else {
        let acc = horner_from(c, x, i + 1).unwrap();
        lemma_horner_suffix(c, x, i + 1);
        let t1 = suffix_sum(c, p, q, i + 1);
        let q1 = pow(q, (n - i - 1) as nat);
        lemma_pow_positive(q, (n - i - 1) as nat);
        lemma_pow_unfold(q, (n - i - 1) as nat);
        let rest = Fraction { num: t1, den: q1 };
        let coefficient = Fraction::from_int(c[i] as int);
        let scaled = acc.product(x).unwrap();
        let result = scaled.sum(coefficient).unwrap();
        lemma_product_value(acc, x);
        lemma_sum_value(scaled, coefficient);
        // scaled ~ acc * x ~ rest * x
        lemma_raw_product_congruent(acc, rest, x);
        assert(acc.raw_product(x).den >= 1) by (nonlinear_arith)
            requires
                acc.raw_product(x).den == acc.den * q,
                acc.den >= 1,
                q >= 1,
        ;
        lemma_same_value_transitive(scaled, acc.raw_product(x), rest.raw_product(x));
        // result ~ scaled + c[i] ~ rest * x + c[i]
        lemma_cross_sum_congruent(scaled, rest.raw_product(x), coefficient);
        assert(scaled.cross_sum(coefficient).den == scaled.den);
        lemma_same_value_transitive(
            result,
            scaled.cross_sum(coefficient),
            rest.raw_product(x).cross_sum(coefficient),
        );
        // rest * x + c[i] is the fraction claimed.
        let ci = c[i] as int;
        let target = Fraction { num: suffix_sum(c, p, q, i), den: pow(q, (n - i) as nat) };
        assert(rest.raw_product(x).cross_sum(coefficient) == target) by {
            assert((t1 * p) * 1 + ci * (q1 * q) == t1 * p + ci * (q * q1)) by (nonlinear_arith);
            assert((q1 * q) * 1 == q * q1) by (nonlinear_arith);
        }
    }
}

/// The numerator that Horner's rule gathers is the sum of the terms, times
/// the denominator of the argument: at every index `i`, the terms below `i`
/// and `p^i` times what is gathered from `i` up make up the whole.
proof fn lemma_suffix_is_sum(c: Seq<i64>, p: int, q: int, i: int)
    requires
        0 <= i <= c.len(),
    ensures
        pow(p, i as nat) * suffix_sum(c, p, q, i) + q * value_sum(c, p, q, i) == suffix_sum(
            c,
            p,
            q,
            0,
        ),
    decreases i,
{
    if i == 0 {
        lemma_pow0(p);
    } else {
        let k = i - 1;
        let n = c.len() as int;
        lemma_suffix_is_sum(c, p, q, k);
        let pk = pow(p, k as nat);
        let qk = pow(q, (n - 1 - k) as nat);
        lemma_pow_unfold(p, k as nat);
        lemma_pow_unfold(q, (n - 1 - k) as nat);
        let ck = c[k] as int;
        let t = suffix_sum(c, p, q, i);
        let v = value_sum(c, p, q, k);
        assert(suffix_sum(c, p, q, k) == t * p + ck * (q * qk));
        assert(value_sum(c, p, q, i) == v + ck * pk * qk);
        let term = ck * pk * qk;
        assert(pk * (t * p + ck * (q * qk)) == pk * (t * p) + pk * (ck * (q * qk)))
            by (nonlinear_arith);
        assert(pk * (t * p) == (p * pk) * t) by (nonlinear_arith);
        assert(pk * (ck * (q * qk)) == q * term) by (nonlinear_arith)
            requires
                term == ck * pk * qk,
        ;
        assert(q * (v + term) == q * v + q * term) by (nonlinear_arith);
    }
}

/// Horner's rule computes the value of the polynomial: where it is not
/// refused, its result is in lowest terms and denotes the sum of the terms
/// `c[k] * x^k`.
pub proof fn lemma_horner_value(c: Seq<i64>, x: Fraction)
    requires
        c.len() >= 1,
        x.valid(),
        horner(c, x) is Some,
    ensures
        horner(c, x).unwrap().is_reduced(),
        value(c, x).valid(),
        horner(c, x).unwrap().same_value(value(c, x)),
{
    let (p, q) = (x.num, x.den);
    let n = c.len() as int;
    let result = horner(c, x).unwrap();
    lemma_horner_suffix(c, x, 0);
    lemma_suffix_is_sum(c, p, q, n);
    let top = pow(q, (n - 1) as nat);
    lemma_pow_positive(q, (n - 1) as nat);
    lemma_pow_unfold(q, (n - 1) as nat);
    let v = value_sum(c, p, q, n);
    let gathered = Fraction { num: suffix_sum(c, p, q, 0), den: pow(q, n as nat) };
    assert(suffix_sum(c, p, q, n) == 0);
    assert(gathered.num == q * v) by (nonlinear_arith)
        requires
            pow(p, n as nat) * 0 + q * v == gathered.num,
    ;
    assert(gathered.den == q * top);
    assert(gathered.den >= 1) by (nonlinear_arith)
        requires
            gathered.den == q * top,
            q >= 1,
            top >= 1,
    ;
    assert(gathered.same_value(value(c, x))) by (nonlinear_arith)
        requires
            gathered.num == q * v,
            gathered.den == q * top,
            value(c, x).num == v,
            value(c, x).den == top,
    ;
    lemma_same_value_transitive(result, gathered, value(c, x));
}

/// Every term below the highest holds the denominator `q` as a factor, and so
/// does their sum.
proof fn lemma_lower_terms(c: Seq<i64>, p: int, q: int, n: int)
    requires
        q >= 1,
        0 <= n <= c.len() - 1,
    ensures
        value_sum(c, p, q, n) % q == 0,
    decreases n,
{
    if n > 0 {
        let k = n - 1;
        lemma_lower_terms(c, p, q, k);
        let rest = pow(q, (c.len() - 2 - k) as nat);
        lemma_pow_unfold(q, (c.len() - 2 - k) as nat);
        let ck = c[k] as int;
        let pk = pow(p, k as nat);
        let w = ck * pk * rest;
        assert(ck * pk * (q * rest) == q * w) by (nonlinear_arith)
            requires
                w == ck * pk * rest,
        ;
        lemma_multiple_mod(q, w);
        lemma_mod_linear(q, value_sum(c, p, q, k), q * w, 1);
    } else {
        lemma_multiple_mod(q, 0);
    }
}

/// Every term above the constant one holds the numerator `p` as a factor, and
/// so does their sum.
proof fn lemma_upper_terms(c: Seq<i64>, p: int, q: int, n: int)
    requires
        p != 0,
        1 <= n <= c.len(),
    ensures
        (value_sum(c, p, q, n) - value_term(c, p, q, 0)) % (abs(p) as int) == 0,
    decreases n,
{
    let m = abs(p) as int;
    if n > 1 {
        let k = n - 1;
        lemma_upper_terms(c, p, q, k);
        let rest = pow(p, (k - 1) as nat);
        lemma_pow_unfold(p, (k - 1) as nat);
        let ck = c[k] as int;
        let qk = pow(q, (c.len() - 1 - k) as nat);
        let s: int = if p < 0 {
            -1
        } else {
            1
        };
        let w = s * (ck * rest * qk);
        assert(ck * (p * rest) * qk == m * w) by (nonlinear_arith)
            requires
                w == s * (ck * rest * qk),
                p == s * m,
        ;
        lemma_multiple_mod(m, w);
        lemma_mod_linear(m, value_sum(c, p, q, k) - value_term(c, p, q, 0), m * w, 1);
    } else {
        assert(value_sum(c, p, q, 1) == value_sum(c, p, q, 0) + value_term(c, p, q, 0));
        lemma_multiple_mod(m, 0);
    }
}

/// At zero every term but the constant one vanishes.
proof fn lemma_value_at_zero(c: Seq<i64>, q: int, n: int)
    requires
        1 <= n <= c.len(),
    ensures
        value_sum(c, 0, q, n) == value_term(c, 0, q, 0),
    decreases n,
{
    if n > 1 {
        let k = n - 1;
        lemma_value_at_zero(c, q, k);
        lemma0_pow(k as nat);
        let ck = c[k] as int;
        let qk = pow(q, (c.len() - 1 - k) as nat);
        assert(ck * 0 * qk == 0) by (nonlinear_arith);
    } else {
        assert(value_sum(c, 0, q, 1) == value_sum(c, 0, q, 0) + value_term(c, 0, q, 0));
    }
}

/// The rational root theorem. Of a polynomial whose constant term and whose
/// leading coefficient are not zero, every root `p / q` in lowest terms has a
/// numerator that divides the constant term and a denominator that divides
/// the leading coefficient: it is one of the candidates.
pub proof fn lemma_rational_root_theorem(c: Seq<i64>, x: Fraction)
    requires
        c.len() >= 1,
        c[0] != 0,
        c.last() != 0,
        x.is_reduced(),
        value(c, x).num == 0,
    ensures
        is_candidate(x, c[0] as int, c.last() as int),
{
    let (p, q) = (x.num, x.den);
    let n = c.len() as int;
    let d = (n - 1) as nat;
    let first = c[0] as int;
    let last = c[n - 1] as int;
    let top = pow(q, d);
    lemma_pow_positive(q, d);
    lemma_pow0(p);
    lemma_pow0(q);
    lemma_gcd_symmetric(abs(p), q as nat);
    assert(value_sum(c, p, q, n) == value_sum(c, p, q, n - 1) + value_term(c, p, q, n - 1));

    // The denominator divides the leading coefficient.
    let below = value_sum(c, p, q, n - 1);
    lemma_lower_terms(c, p, q, n - 1);
    lemma_multiple_mod(q, 0);
    lemma_mod_linear(q, 0, below, -1);
    assert(pow(p, d) * last == last * pow(p, d) * 1) by (nonlinear_arith);
    lemma_coprime_cancels_power(q as nat, p, d, last);
    lemma_divides_magnitude(q as nat, last);
    lemma_divisor_bound(q as nat, abs(last));

    // The numerator divides the constant term.
    assert(value_term(c, p, q, 0) == top * first) by (nonlinear_arith)
        requires
            value_term(c, p, q, 0) == first * 1 * top,
    ;
    if p == 0 {
        lemma_value_at_zero(c, q, n);
        assert(false) by (nonlinear_arith)
            requires
                top * first == 0,
                top > 0,
                first != 0,
        ;
    }
    let m = abs(p);
    lemma_upper_terms(c, p, q, n);
    lemma_multiple_mod(m as int, 0);
    lemma_mod_linear(m as int, 0, -value_term(c, p, q, 0), -1);
    assert(abs(q) == q);
    lemma_coprime_cancels_power(m, q, d, first);
    lemma_divides_magnitude(m, first);
    lemma_divisor_bound(m, abs(first));

    lemma_reduced_fixpoint(x);
    assert(x == candidate(p, q));
    assert(is_divisor(abs(p) as int, abs(first) as int));
    assert(is_divisor(q, abs(last) as int));
}

/// No rational root is missed. Where the search goes through for a polynomial
/// whose constant term and whose leading coefficient are not zero, every
/// fraction in lowest terms at which the value of the polynomial is zero is
/// among the roots that the search gives.
pub proof fn lemma_roots_are_found(c: Seq<i64>, x: Fraction)
    requires
        c.len() >= 1,
        c[0] != 0,
        c.last() != 0,
        search_defined(c),
        x.is_reduced(),
        value(c, x).num == 0,
    ensures
        root_set(c).contains(x),
{
    lemma_rational_root_theorem(c, x);
    assert(horner(c, x) is Some);
    let r = horner(c, x).unwrap();
    lemma_horner_value(c, x);
    assert(r.num == 0) by (nonlinear_arith)
        requires
            r.num * value(c, x).den == value(c, x).num * r.den,
            value(c, x).num == 0,
            value(c, x).den >= 1,
    ;
    lemma_gcd_symmetric(0, r.den as nat);
}

/// What the search gives are roots: each is a fraction in lowest terms at
/// which the value of the polynomial is zero.
pub proof fn lemma_found_roots_are_roots(c: Seq<i64>, x: Fraction)
    requires
        c.len() >= 1,
        root_set(c).contains(x),
    ensures
        x.is_reduced(),
        value(c, x).num == 0,
{
    let (s, q) = choose|s: int, q: int|
        is_divisor(abs(s) as int, abs(c[0] as int) as int) && is_divisor(
            q,
            abs(c.last() as int) as int,
        ) && x == #[trigger] candidate(s, q);
    lemma_reduced_is_reduced(Fraction { num: s, den: q });
    lemma_horner_value(c, x);
    assert(value(c, x).num == 0) by (nonlinear_arith)
        requires
            0 * value(c, x).den == value(c, x).num * 1,
    ;
}

} // verus!
