//! The mathematical model of a fraction: a numerator and a denominator taken
//! from the unbounded integers.
//!
//! Executable rationals are described by the [`Fraction`] they hold, and their
//! arithmetic by the operations on fractions defined here. Everything in this
//! module is ghost code.
use crate::number_theory::{
    divides, gcd, lcm, lemma_coprime_divides_product, lemma_divides_antisymmetric,
    lemma_divides_multiple, lemma_divides_quotient, lemma_gcd_divides, lemma_gcd_positive,
    lemma_gcd_quotients_coprime, lemma_gcd_symmetric, lemma_lcm_positive, lemma_lcm_symmetric,
};
use vstd::arithmetic::div_mod::{
    lemma_div_by_self, lemma_div_multiples_vanish, lemma_fundamental_div_mod,
};
use vstd::math::abs;
use vstd::prelude::*;

verus! {

/// A numerator over a denominator.
pub struct Fraction {
    pub num: int,
    pub den: int,
}

impl Fraction {
    /// The fraction `n / 1`.
    pub open spec fn from_int(n: int) -> Fraction {
        Fraction { num: n, den: 1 }
    }

    /// The fraction `0 / 1`, the one reduced fraction of value zero.
    pub open spec fn zero() -> Fraction {
        Fraction::from_int(0)
    }

    /// The denominator is strictly positive.
    pub open spec fn valid(self) -> bool {
        self.den >= 1
    }

    /// Numerator and denominator are within what a signed and an unsigned
    /// 64-bit integer hold.
    pub open spec fn fits(self) -> bool {
        &&& i64::MIN <= self.num <= i64::MAX
        &&& 1 <= self.den <= u64::MAX
    }

    /// The greatest common divisor of the numerator's magnitude and the
    /// denominator.
    pub open spec fn common_divisor(self) -> nat {
        gcd(abs(self.num), self.den as nat)
    }

    /// The fraction is valid and in lowest terms.
    pub open spec fn is_reduced(self) -> bool {
        &&& self.valid()
        &&& self.common_divisor() == 1
    }

    /// Numerator and denominator divided by their greatest common divisor.
    pub open spec fn reduced(self) -> Fraction {
        Fraction {
            num: self.num / (self.common_divisor() as int),
            den: self.den / (self.common_divisor() as int),
        }
    }

    /// The two fractions denote the same rational number.
    pub open spec fn same_value(self, other: Fraction) -> bool {
        self.num * other.den == other.num * self.den
    }

    /// Equality of rationals: the reduced numerators and the reduced
    /// denominators are the same.
    pub open spec fn equal(self, other: Fraction) -> bool {
        self.reduced() == other.reduced()
    }

    /// The sum over the least common denominator, before reduction.
    pub open spec fn raw_sum(self, rhs: Fraction) -> Fraction {
        let l = lcm(self.den as nat, rhs.den as nat) as int;
        Fraction { num: self.num * (l / self.den) + rhs.num * (l / rhs.den), den: l }
    }

    /// The product of the numerators over the product of the denominators,
    /// before reduction.
    pub open spec fn raw_product(self, rhs: Fraction) -> Fraction {
        Fraction { num: self.num * rhs.num, den: self.den * rhs.den }
    }

    /// The sum over the product of the denominators, as taught at school.
    pub open spec fn cross_sum(self, rhs: Fraction) -> Fraction {
        Fraction { num: self.num * rhs.den + rhs.num * self.den, den: self.den * rhs.den }
    }

    /// The reduced sum, or `None` where the sum over the least common
    /// denominator does not fit in 64 bits.
    pub open spec fn sum(self, rhs: Fraction) -> Option<Fraction> {
        if self.raw_sum(rhs).fits() {
            Some(self.raw_sum(rhs).reduced())
        } else {
            None
        }
    }

    /// The reduced product, or `None` where the product of the numerators or
    /// that of the denominators does not fit in 64 bits.
    pub open spec fn product(self, rhs: Fraction) -> Option<Fraction> {
        if self.raw_product(rhs).fits() {
            Some(self.raw_product(rhs).reduced())
        } else {
            None
        }
    }
}

/// Where `g` divides the magnitude of `n`, it divides `n` itself, and the
/// quotient has the quotient of the magnitude as its magnitude.
pub proof fn lemma_signed_quotient(n: int, g: nat)
    requires
        g > 0,
        divides(g, abs(n)),
    ensures
        n == g * (n / (g as int)),
        abs(n / (g as int)) == abs(n) / g,
{
    let m = abs(n);
    lemma_divides_quotient(g, m);
    let q = (m / g) as int;
    if n >= 0 {
        assert(n == m);
    } else {
        assert(n == g * (-q)) by (nonlinear_arith)
            requires
                n == -m,
                m == g * q,
        ;
        lemma_div_multiples_vanish(-q, g as int);
    }
}

/// The reduced form of a valid fraction is in lowest terms.
pub proof fn lemma_reduced_is_reduced(f: Fraction)
    requires
        f.valid(),
    ensures
        f.reduced().is_reduced(),
{
    let m = abs(f.num);
    let d = f.den as nat;
    let g = gcd(m, d);
    lemma_gcd_positive(m, d);
    lemma_gcd_divides(m, d);
    lemma_signed_quotient(f.num, g);
    lemma_gcd_quotients_coprime(m, d);
    lemma_divides_quotient(g, d);
    let q = d / g;
    assert(q >= 1) by (nonlinear_arith)
        requires
            d == g * q,
            d >= 1,
            g >= 1,
            q >= 0,
    ;
    assert(f.reduced().den == q);
    assert(abs(f.reduced().num) == m / g);
}

/// Reducing a valid fraction does not change the rational number it denotes.
pub proof fn lemma_reduced_same_value(f: Fraction)
    requires
        f.valid(),
    ensures
        f.reduced().same_value(f),
{
    let m = abs(f.num);
    let d = f.den as nat;
    let g = gcd(m, d);
    lemma_gcd_positive(m, d);
    lemma_gcd_divides(m, d);
    lemma_signed_quotient(f.num, g);
    lemma_divides_quotient(g, d);
    let p = f.num / (g as int);
    let q = f.den / (g as int);
    assert(p * f.den == f.num * q) by (nonlinear_arith)
        requires
            f.num == g * p,
            f.den == g * q,
    ;
}

/// The reduced form of a valid fraction has a numerator of the same sign and
/// no greater magnitude, and a denominator that is no larger.
pub proof fn lemma_reduced_bounds(f: Fraction)
    requires
        f.valid(),
    ensures
        f.num >= 0 ==> 0 <= f.reduced().num <= f.num,
        f.num <= 0 ==> f.num <= f.reduced().num <= 0,
        1 <= f.reduced().den <= f.den,
{
    let m = abs(f.num);
    let d = f.den as nat;
    let g = gcd(m, d);
    lemma_gcd_positive(m, d);
    lemma_gcd_divides(m, d);
    lemma_signed_quotient(f.num, g);
    lemma_divides_quotient(g, m);
    lemma_divides_quotient(g, d);
    assert(m / g <= m && 1 <= d / g <= d) by (nonlinear_arith)
        requires
            m == g * (m / g),
            d == g * (d / g),
            g >= 1,
            d >= 1,
            m / g >= 0,
            d / g >= 0,
    ;
    let q = f.num / (g as int);
    assert((f.num >= 0 ==> q >= 0) && (f.num <= 0 ==> q <= 0)) by (nonlinear_arith)
        requires
            f.num == g * q,
            g >= 1,
    ;
}

/// Zero over any positive denominator reduces to `0/1`.
pub proof fn lemma_zero_reduced(d: int)
    requires
        d >= 1,
    ensures
        (Fraction { num: 0, den: d }).reduced() == Fraction::zero(),
{
    lemma_gcd_symmetric(0, d as nat);
    assert(gcd(d as nat, 0) == d);
    lemma_div_by_self(d);
}

/// A fraction in lowest terms is its own reduced form.
pub proof fn lemma_reduced_fixpoint(f: Fraction)
    requires
        f.is_reduced(),
    ensures
        f.reduced() == f,
{
}

/// Denoting the same rational number is transitive, given a middle fraction
/// with a denominator other than zero.
pub proof fn lemma_same_value_transitive(a: Fraction, b: Fraction, c: Fraction)
    requires
        b.den != 0,
        a.same_value(b),
        b.same_value(c),
    ensures
        a.same_value(c),
{
    let (an, ad, bn, bd, cn, cd) = (a.num, a.den, b.num, b.den, c.num, c.den);
    assert((an * cd - cn * ad) * bd == 0) by (nonlinear_arith)
        requires
            an * bd == bn * ad,
            bn * cd == cn * bd,
    ;
    assert(an * cd - cn * ad == 0) by (nonlinear_arith)
        requires
            (an * cd - cn * ad) * bd == 0,
            bd != 0,
    ;
}

/// Two fractions in lowest terms that denote the same rational number are the
/// same fraction.
pub proof fn lemma_reduced_unique(a: Fraction, b: Fraction)
    requires
        a.is_reduced(),
        b.is_reduced(),
        a.same_value(b),
    ensures
        a == b,
{
    let m1 = abs(a.num);
    let m2 = abs(b.num);
    let d1 = a.den as nat;
    let d2 = b.den as nat;
    let (an, bn) = (a.num, b.num);
    assert(m1 * d2 == m2 * d1) by (nonlinear_arith)
        requires
            an * d2 == bn * d1,
            d1 >= 1,
            d2 >= 1,
            m1 == (if an >= 0 {
                an
            } else {
                -an
            }),
            m2 == (if bn >= 0 {
                bn
            } else {
                -bn
            }),
    ;
    // d1 divides m1 * d2 and is coprime to m1, so it divides d2.
    lemma_divides_multiple(d1, m2);
    assert(d1 * m2 == m1 * d2) by (nonlinear_arith)
        requires
            m1 * d2 == m2 * d1,
    ;
    lemma_gcd_symmetric(m1, d1);
    lemma_coprime_divides_product(d1, m1, d2);
    // And the other way round.
    lemma_divides_multiple(d2, m1);
    assert(d2 * m1 == m2 * d1) by (nonlinear_arith)
        requires
            m1 * d2 == m2 * d1,
    ;
    lemma_gcd_symmetric(m2, d2);
    lemma_coprime_divides_product(d2, m2, d1);
    lemma_divides_antisymmetric(d1, d2);
    assert(an == bn) by (nonlinear_arith)
        requires
            an * d2 == bn * d1,
            d1 == d2,
            d1 >= 1,
    ;
}

/// Two valid fractions denote the same rational number exactly when their
/// reduced forms are the same fraction.
pub proof fn lemma_equal_iff_same_value(a: Fraction, b: Fraction)
    requires
        a.valid(),
        b.valid(),
    ensures
        a.equal(b) <==> a.same_value(b),
{
    lemma_reduced_is_reduced(a);
    lemma_reduced_is_reduced(b);
    lemma_reduced_same_value(a);
    lemma_reduced_same_value(b);
    let ra = a.reduced();
    let rb = b.reduced();
    if a.same_value(b) {
        lemma_same_value_transitive(ra, a, b);
        lemma_same_value_symmetric(rb, b);
        lemma_same_value_transitive(ra, b, rb);
        lemma_reduced_unique(ra, rb);
    }
    if ra == rb {
        lemma_same_value_symmetric(ra, a);
        lemma_same_value_transitive(a, ra, b);
    }
}

/// Denoting the same rational number is symmetric.
pub proof fn lemma_same_value_symmetric(a: Fraction, b: Fraction)
    requires
        a.same_value(b),
    ensures
        b.same_value(a),
{
}

/// `(a * b) * (c * d)` is `(a * c) * (b * d)`.
proof fn lemma_swap_inner(a: int, b: int, c: int, d: int)
    ensures
        (a * b) * (c * d) == (a * c) * (b * d),
{
    assert((a * b) * (c * d) == (a * c) * (b * d)) by (nonlinear_arith);
}

/// `(a + b) * c` is `a * c + b * c`.
proof fn lemma_distribute(a: int, b: int, c: int)
    ensures
        (a + b) * c == a * c + b * c,
{
    assert((a + b) * c == a * c + b * c) by (nonlinear_arith);
}

/// Equality of rationals is reflexive.
pub proof fn lemma_equal_reflexive(a: Fraction)
    ensures
        a.equal(a),
{
}

/// Equality of rationals is symmetric.
pub proof fn lemma_equal_symmetric(a: Fraction, b: Fraction)
    requires
        a.equal(b),
    ensures
        b.equal(a),
{
}

/// Equality of rationals is transitive.
pub proof fn lemma_equal_transitive(a: Fraction, b: Fraction, c: Fraction)
    requires
        a.equal(b),
        b.equal(c),
    ensures
        a.equal(c),
{
}

/// Multiplying numerator and denominator by the same positive integer gives
/// an equal rational.
pub proof fn lemma_equal_scaled(a: Fraction, k: int)
    requires
        a.valid(),
        k >= 1,
    ensures
        (Fraction { num: k * a.num, den: k * a.den }).valid(),
        (Fraction { num: k * a.num, den: k * a.den }).equal(a),
{
    let scaled = Fraction { num: k * a.num, den: k * a.den };
    let (n, d) = (a.num, a.den);
    assert(k * d >= 1 && (k * n) * d == n * (k * d)) by (nonlinear_arith)
        requires
            k >= 1,
            d >= 1,
    ;
    lemma_equal_iff_same_value(scaled, a);
}

/// Reducing twice is reducing once.
pub proof fn lemma_reduced_idempotent(f: Fraction)
    requires
        f.valid(),
    ensures
        f.reduced().reduced() == f.reduced(),
{
    lemma_reduced_is_reduced(f);
    lemma_reduced_fixpoint(f.reduced());
}

/// The sum does not depend on the order of its operands.
pub proof fn lemma_sum_commutative(a: Fraction, b: Fraction)
    ensures
        a.sum(b) == b.sum(a),
{
    lemma_lcm_symmetric(a.den as nat, b.den as nat);
}

/// The product does not depend on the order of its operands.
pub proof fn lemma_product_commutative(a: Fraction, b: Fraction)
    ensures
        a.product(b) == b.product(a),
{
    let (an, ad, bn, bd) = (a.num, a.den, b.num, b.den);
    assert(an * bn == bn * an && ad * bd == bd * ad) by (nonlinear_arith);
}

/// The sum over the least common denominator is a valid fraction and denotes
/// the same rational number as the sum over the product of the denominators.
pub proof fn lemma_raw_sum_value(a: Fraction, b: Fraction)
    requires
        a.valid(),
        b.valid(),
    ensures
        a.raw_sum(b).valid(),
        a.cross_sum(b).valid(),
        a.raw_sum(b).same_value(a.cross_sum(b)),
{
    let (an, ad, bn, bd) = (a.num, a.den, b.num, b.den);
    let l = lcm(ad as nat, bd as nat) as int;
    lemma_lcm_positive(ad as nat, bd as nat);
    lemma_fundamental_div_mod(l, ad);
    lemma_fundamental_div_mod(l, bd);
    let p = l / ad;
    let q = l / bd;
    assert(ad * bd >= 1) by (nonlinear_arith)
        requires
            ad >= 1,
            bd >= 1,
    ;
    // (an * p) * (ad * bd) == (an * bd) * l
    lemma_swap_inner(an, p, ad, bd);
    lemma_swap_inner(an, bd, ad, p);
    assert(p * bd == bd * p) by (nonlinear_arith);
    // (bn * q) * (ad * bd) == (bn * ad) * l
    lemma_swap_inner(bn, q, ad, bd);
    assert(q * bd == bd * q) by (nonlinear_arith);
    lemma_distribute(an * p, bn * q, ad * bd);
    lemma_distribute(an * bd, bn * ad, l);
}

/// A sum that is given is in lowest terms, fits in 64 bits and denotes the sum
/// of the two rational numbers.
pub proof fn lemma_sum_value(a: Fraction, b: Fraction)
    requires
        a.valid(),
        b.valid(),
        a.sum(b) is Some,
    ensures
        a.sum(b).unwrap().is_reduced(),
        a.sum(b).unwrap().fits(),
        a.sum(b).unwrap().same_value(a.cross_sum(b)),
{
    lemma_raw_sum_value(a, b);
    lemma_reduced_bounds(a.raw_sum(b));
    lemma_reduced_is_reduced(a.raw_sum(b));
    lemma_reduced_same_value(a.raw_sum(b));
    lemma_same_value_transitive(a.raw_sum(b).reduced(), a.raw_sum(b), a.cross_sum(b));
}

/// A product that is given is in lowest terms, fits in 64 bits and denotes
/// the product of the two rational numbers.
pub proof fn lemma_product_value(a: Fraction, b: Fraction)
    requires
        a.valid(),
        b.valid(),
        a.product(b) is Some,
    ensures
        a.product(b).unwrap().is_reduced(),
        a.product(b).unwrap().fits(),
        a.product(b).unwrap().same_value(a.raw_product(b)),
{
    lemma_reduced_bounds(a.raw_product(b));
    lemma_reduced_is_reduced(a.raw_product(b));
    lemma_reduced_same_value(a.raw_product(b));
}

/// The sum over the product of the denominators denotes the same number when
/// its first operand is replaced by a fraction of the same value.
pub proof fn lemma_cross_sum_congruent(x: Fraction, y: Fraction, c: Fraction)
    requires
        x.same_value(y),
    ensures
        x.cross_sum(c).same_value(y.cross_sum(c)),
        c.cross_sum(x).same_value(c.cross_sum(y)),
{
    let (xn, xd, yn, yd, cn, cd) = (x.num, x.den, y.num, y.den, c.num, c.den);
    lemma_swap_inner(xn, cd, yd, cd);
    lemma_swap_inner(yn, cd, xd, cd);
    lemma_swap_inner(cn, xd, yd, cd);
    lemma_distribute(xn * cd, cn * xd, yd * cd);
    lemma_distribute(yn * cd, cn * yd, xd * cd);
    assert(x.cross_sum(c).same_value(y.cross_sum(c)));
    assert(cd * yd == yd * cd && cd * xd == xd * cd) by (nonlinear_arith);
}

/// The product before reduction denotes the same number when its first
/// operand is replaced by a fraction of the same value.
pub proof fn lemma_raw_product_congruent(x: Fraction, y: Fraction, c: Fraction)
    requires
        x.same_value(y),
    ensures
        x.raw_product(c).same_value(y.raw_product(c)),
{
    lemma_swap_inner(x.num, c.num, y.den, c.den);
    lemma_swap_inner(y.num, c.num, x.den, c.den);
}

/// The sum over the product of the denominators is associative.
pub proof fn lemma_cross_sum_associative(a: Fraction, b: Fraction, c: Fraction)
    ensures
        a.cross_sum(b).cross_sum(c) == a.cross_sum(b.cross_sum(c)),
{
    let (an, ad, bn, bd, cn, cd) = (a.num, a.den, b.num, b.den, c.num, c.den);
    assert((an * bd + bn * ad) * cd + cn * (ad * bd) == an * (bd * cd) + (bn * cd + cn * bd) * ad)
        by (nonlinear_arith);
    assert((ad * bd) * cd == ad * (bd * cd)) by (nonlinear_arith);
}

/// Addition is associative wherever the four sums involved are given.
pub proof fn lemma_sum_associative(a: Fraction, b: Fraction, c: Fraction)
    requires
        a.valid(),
        b.valid(),
        c.valid(),
        a.sum(b) is Some,
        b.sum(c) is Some,
        a.sum(b).unwrap().sum(c) is Some,
        a.sum(b.sum(c).unwrap()) is Some,
    ensures
        a.sum(b).unwrap().sum(c) == a.sum(b.sum(c).unwrap()),
{
    let ab = a.sum(b).unwrap();
    let bc = b.sum(c).unwrap();
    let left = ab.sum(c).unwrap();
    let right = a.sum(bc).unwrap();
    lemma_sum_value(a, b);
    lemma_sum_value(b, c);
    lemma_sum_value(ab, c);
    lemma_sum_value(a, bc);
    lemma_raw_sum_value(a, b);
    lemma_raw_sum_value(b, c);
    lemma_raw_sum_value(ab, c);
    lemma_raw_sum_value(a, bc);
    let abx = a.cross_sum(b);
    let bcx = b.cross_sum(c);
    lemma_raw_sum_value(abx, c);
    lemma_raw_sum_value(a, bcx);
    // left ~ ab + c ~ (a + b) + c == a + (b + c) ~ a + bc ~ right
    lemma_cross_sum_congruent(ab, abx, c);
    lemma_same_value_transitive(left, ab.cross_sum(c), abx.cross_sum(c));
    lemma_cross_sum_associative(a, b, c);
    lemma_cross_sum_congruent(bc, bcx, a);
    lemma_same_value_transitive(right, a.cross_sum(bc), a.cross_sum(bcx));
    lemma_same_value_symmetric(right, a.cross_sum(bcx));
    lemma_same_value_transitive(left, a.cross_sum(bcx), right);
    lemma_reduced_unique(left, right);
}

} // verus!
