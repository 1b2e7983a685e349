//! Exact rational numbers in 64-bit integers.
//!
//! A [`Rational`] holds a signed numerator over a strictly positive
//! denominator. Building one from a pair leaves the pair as given; arithmetic
//! returns values in lowest terms, and reports an [`ArithmeticOverflow`]
//! instead of wrapping.
use crate::decimal::{append_decimal, append_digits, decimal, digits};
use crate::fraction::{
    lemma_equal_iff_same_value, lemma_product_value, lemma_reduced_bounds,
    lemma_reduced_fixpoint, lemma_reduced_is_reduced, lemma_reduced_same_value,
    lemma_signed_quotient, lemma_sum_value, lemma_zero_reduced, Fraction,
};
use crate::number_theory::{
    greatest_common_divisor, least_common_multiple, lemma_divides_quotient, lemma_gcd_divides,
    lemma_gcd_positive, lemma_gcd_symmetric, lemma_gcd_with_one, lemma_lcm_positive, magnitude,
};
use vstd::math::abs;
use vstd::prelude::*;
use vstd::string::StringExecFns;

verus! {

/// An intermediate value of a computation did not fit in 64 bits.
#[derive(Debug, Clone, Copy, PartialEq, Eq, Structural)]
pub struct ArithmeticOverflow;

/// An unsigned 64-bit integer other than zero.
#[derive(Debug, Clone, Copy)]
pub struct PositiveU64 {
    value: u64,
}

impl View for PositiveU64 {
    type V = int;

    closed spec fn view(&self) -> int {
        self.value as int
    }
}

impl PositiveU64 {
    /// The value is at least one.
    #[verifier::type_invariant]
    pub open spec fn wf(self) -> bool {
        1 <= self@ <= u64::MAX
    }

    /// `value` as a positive integer, or `None` if it is zero.
    pub fn new(value: u64) -> (r: Option<PositiveU64>)
        ensures
            match r {
                Some(p) => value >= 1 && p@ == value && p.wf(),
                None => value == 0,
            },
    {
        if value == 0 {
            None
        } else {
            Some(PositiveU64 { value })
        }
    }

    /// The integer held.
    pub fn get(self) -> (v: u64)
        ensures
            v == self@,
            v >= 1,
    {
        proof {
            use_type_invariant(&self);
        }
        self.value
    }
}

/// A rational number: a numerator over a strictly positive denominator, with
/// a note of whether the pair is known to be in lowest terms.
///
/// `==` compares the numbers, whatever pairs stand for them. Hashing goes by
/// the pair as held: values that serve as keys are to be in lowest terms.
#[derive(Debug, Clone, Copy, Hash)]
pub struct Rational {
    numerator: i64,
    denominator: u64,
    normalized: bool,
}

impl View for Rational {
    type V = Fraction;

    closed spec fn view(&self) -> Fraction {
        Fraction { num: self.numerator as int, den: self.denominator as int }
    }
}

/// A fraction as text: the numerator alone where the denominator is one, else
/// numerator, slash and denominator.
pub open spec fn rational_text(f: Fraction) -> Seq<char> {
    if f.den != 1 {
        decimal(f.num) + seq!['/'] + digits(f.den as nat)
    } else {
        decimal(f.num)
    }
}

impl Rational {
    /// The pair fits in 64 bits with a positive denominator, zero is held as
    /// `0/1`, and the note of being in lowest terms is set exactly when the
    /// pair is in lowest terms.
    #[verifier::type_invariant]
    pub open spec fn wf(self) -> bool {
        &&& self@.fits()
        &&& self@.num == 0 ==> self@.den == 1
        &&& self.is_normalized() <==> self@.is_reduced()
    }

    /// The value carries the note that it is in lowest terms.
    pub closed spec fn is_normalized(self) -> bool {
        self.normalized
    }

    /// The value in lowest terms, as it is held: the value itself where it
    /// carries the note of being in lowest terms, else the reduced pair with
    /// the note set.
    pub closed spec fn normal_form(self) -> Rational {
        if self.normalized {
            self
        } else {
            Rational::in_lowest_terms(self@.reduced())
        }
    }

    /// The rational that holds the fraction `f` with the note that it is in
    /// lowest terms.
    pub closed spec fn in_lowest_terms(f: Fraction) -> Rational {
        Rational { numerator: f.num as i64, denominator: f.den as u64, normalized: true }
    }

    /// What [`Rational::add`] returns: the sum of the fractions held, or the
    /// overflow.
    pub open spec fn checked_sum(self, rhs: Rational) -> Result<Rational, ArithmeticOverflow> {
        match self@.sum(rhs@) {
            Some(f) => Ok(Rational::in_lowest_terms(f)),
            None => Err(ArithmeticOverflow),
        }
    }

    /// What [`Rational::multiply`] returns: the product of the fractions
    /// held, or the overflow.
    pub open spec fn checked_product(self, rhs: Rational) -> Result<
        Rational,
        ArithmeticOverflow,
    > {
        match self@.product(rhs@) {
            Some(f) => Ok(Rational::in_lowest_terms(f)),
            None => Err(ArithmeticOverflow),
        }
    }

    /// The rational `numerator / denominator` as given, not reduced. Zero is
    /// held as `0/1` whatever the denominator.
    pub fn new(numerator: i64, denominator: PositiveU64) -> (r: Rational)
        ensures
            r@ == (if numerator == 0 {
                Fraction::zero()
            } else {
                Fraction { num: numerator as int, den: denominator@ }
            }),
            r.wf(),
    {
        let denominator: u64 = if numerator != 0 {
            denominator.get()
        } else {
            1
        };
        let g: u64 = greatest_common_divisor(denominator, magnitude(numerator));
        proof {
            lemma_gcd_symmetric(denominator as nat, abs(numerator as int));
        }
        Rational { numerator, denominator, normalized: g == 1 }
    }

    /// The integer `numerator` as a rational.
    pub fn new_from_int(numerator: i64) -> (r: Rational)
        ensures
            r@ == Fraction::from_int(numerator as int),
            r.is_normalized(),
            r.wf(),
    {
        proof {
            lemma_gcd_with_one(abs(numerator as int));
        }
        Rational { numerator, denominator: 1, normalized: true }
    }

    /// Zero.
    pub fn zero() -> (r: Rational)
        ensures
            r@ == Fraction::zero(),
            r.is_normalized(),
            r.wf(),
    {
        Rational::new_from_int(0)
    }

    /// The rational `numerator / denominator` in lowest terms.
    pub fn new_normalize(numerator: i64, denominator: PositiveU64) -> (r: Rational)
        ensures
            r@ == (Fraction { num: numerator as int, den: denominator@ }).reduced(),
            r.is_normalized(),
            r.wf(),
    {
        let mut rat = Rational::new(numerator, denominator);
        proof {
            use_type_invariant(&denominator);
            if numerator == 0 {
                lemma_zero_reduced(denominator@);
                lemma_zero_reduced(1);
            }
        }
        rat.normalize();
        rat
    }

    /// The greatest common divisor of the denominator and the numerator's
    /// magnitude.
    fn gcd(&self) -> (g: u64)
        ensures
            g == self@.common_divisor(),
            g >= 1,
    {
        proof {
            use_type_invariant(self);
            lemma_gcd_symmetric(self.denominator as nat, abs(self.numerator as int));
            lemma_gcd_positive(abs(self.numerator as int), self.denominator as nat);
        }
        greatest_common_divisor(self.denominator, magnitude(self.numerator))
    }

    /// Brings the value to lowest terms: numerator and denominator are
    /// divided by their greatest common divisor. A value that is already
    /// noted as being in lowest terms is left as it is.
    pub fn normalize(&mut self)
        ensures
            *final(self) == old(self).normal_form(),
            final(self)@ == old(self)@.reduced(),
            final(self).is_normalized(),
            final(self).wf(),
            old(self).is_normalized() ==> *final(self) == *old(self),
    {
        proof {
            use_type_invariant(&*self);
        }
        if self.normalized {
            return ;
        }
        let g: u64 = self.gcd();
        *self = Rational::divided(self.numerator, self.denominator, g);
    }

    /// The value in lowest terms.
    pub fn into_normal(self) -> (r: Rational)
        ensures
            r == self.normal_form(),
            r@ == self@.reduced(),
            r.is_normalized(),
            r.wf(),
            self.is_normalized() ==> r == self,
    {
        let mut same = self;
        same.normalize();
        same
    }

    /// Whether the two values are the same rational number: whether they
    /// agree once both are in lowest terms.
    pub fn equals(&self, other: &Rational) -> (b: bool)
        ensures
            b == self@.equal(other@),
            b == self@.same_value(other@),
    {
        proof {
            use_type_invariant(self);
            use_type_invariant(other);
            lemma_equal_iff_same_value(self@, other@);
        }
        let a = self.into_normal();
        let b = other.into_normal();
        a.numerator == b.numerator && a.denominator == b.denominator
    }

    /// The sum of the two values, in lowest terms. Both are brought over the
    /// least common multiple of their denominators; where that multiple or
    /// the numerator over it does not fit in 64 bits, the sum is refused.
    /// What is returned denotes the sum of the two rational numbers.
    pub fn add(self, rhs: Rational) -> (r: Result<Rational, ArithmeticOverflow>)
        ensures
            r == self.checked_sum(rhs),
            match r {
                Ok(s) => {
                    &&& self@.sum(rhs@) == Some(s@)
                    &&& s@.same_value(self@.cross_sum(rhs@))
                    &&& s.is_normalized()
                    &&& s.wf()
                },
                Err(_) => self@.sum(rhs@) is None,
            },
    {
        proof {
            use_type_invariant(&self);
            use_type_invariant(&rhs);
            lemma_lcm_positive(self.denominator as nat, rhs.denominator as nat);
            if self@.sum(rhs@) is Some {
                lemma_sum_value(self@, rhs@);
            }
        }
        let denominator: u64 = match least_common_multiple(self.denominator, rhs.denominator) {
            Some(l) => l,
            None => {
                return Err(ArithmeticOverflow);
            },
        };
        let left: i128 = widening_product(self.numerator, denominator / self.denominator);
        let right: i128 = widening_product(rhs.numerator, denominator / rhs.denominator);
        match left.checked_add(right) {
            Some(numerator) => {
                if i64::MIN as i128 <= numerator && numerator <= i64::MAX as i128 {
                    Ok(Rational::reduce(numerator as i64, denominator))
                } else {
                    Err(ArithmeticOverflow)
                }
            },
            None => Err(ArithmeticOverflow),
        }
    }

    /// The product of the two values, in lowest terms: the product of the
    /// numerators over the product of the denominators, reduced. Where one
    /// of the two products does not fit in 64 bits, the product is refused.
    pub fn multiply(self, rhs: Rational) -> (r: Result<Rational, ArithmeticOverflow>)
        ensures
            r == self.checked_product(rhs),
            match r {
                Ok(p) => {
                    &&& self@.product(rhs@) == Some(p@)
                    &&& p@.same_value(self@.raw_product(rhs@))
                    &&& p.is_normalized()
                    &&& p.wf()
                },
                Err(_) => self@.product(rhs@) is None,
            },
    {
        proof {
            use_type_invariant(&self);
            use_type_invariant(&rhs);
            if self@.product(rhs@) is Some {
                lemma_product_value(self@, rhs@);
            }
            assert(self.denominator * rhs.denominator >= 1) by (nonlinear_arith)
                requires
                    self.denominator >= 1,
                    rhs.denominator >= 1,
            ;
        }
        let numerator: i64 = match self.numerator.checked_mul(rhs.numerator) {
            Some(n) => n,
            None => {
                return Err(ArithmeticOverflow);
            },
        };
        let denominator: u64 = match self.denominator.checked_mul(rhs.denominator) {
            Some(d) => d,
            None => {
                return Err(ArithmeticOverflow);
            },
        };
        Ok(Rational::reduce(numerator, denominator))
    }

    /// The value as text: the numerator in decimal notation, followed by a
    /// slash and the denominator unless the denominator is one. The pair is
    /// written as it is held, reduced or not.
    pub fn to_string(&self) -> (s: String)
        ensures
            s@ == rational_text(self@),
    {
        proof {
            use_type_invariant(self);
        }
        let mut text = String::new();
        append_decimal(&mut text, self.numerator);
        if self.denominator != 1 {
            proof {
                reveal_strlit("/");
            }
            text.append("/");
            append_digits(&mut text, self.denominator);
        }
        assert(text@ =~= rational_text(self@));
        text
    }

    /// The rational in lowest terms of value `numerator / denominator`.
    fn reduce(numerator: i64, denominator: u64) -> (r: Rational)
        requires
            denominator >= 1,
        ensures
            r@ == (Fraction { num: numerator as int, den: denominator as int }).reduced(),
            r.is_normalized(),
            r.wf(),
    {
        let g: u64 = greatest_common_divisor(denominator, magnitude(numerator));
        proof {
            lemma_gcd_symmetric(denominator as nat, abs(numerator as int));
        }
        Rational::divided(numerator, denominator, g)
    }

    /// The rational of `numerator` and `denominator` both divided by `g`,
    /// their greatest common divisor.
    fn divided(numerator: i64, denominator: u64, g: u64) -> (r: Rational)
        requires
            denominator >= 1,
            g == (Fraction { num: numerator as int, den: denominator as int }).common_divisor(),
        ensures
            r@ == (Fraction { num: numerator as int, den: denominator as int }).reduced(),
            r.is_normalized(),
            r.wf(),
    {
        let m: u64 = magnitude(numerator);
        let ghost f = Fraction { num: numerator as int, den: denominator as int };
        proof {
            lemma_gcd_positive(m as nat, denominator as nat);
            lemma_gcd_divides(m as nat, denominator as nat);
            lemma_signed_quotient(numerator as int, g as nat);
            lemma_divides_quotient(g as nat, m as nat);
            lemma_reduced_is_reduced(f);
            lemma_reduced_bounds(f);
        }
        let reduced_numerator: i64 = with_sign(numerator < 0, m / g);
        let reduced_denominator: u64 = denominator / g;
        proof {
            assert(reduced_numerator == f.reduced().num);
            assert(reduced_denominator == f.reduced().den);
            if reduced_numerator == 0 {
                assert(numerator == 0) by (nonlinear_arith)
                    requires
                        numerator == g * (numerator as int / (g as int)),
                        numerator as int / (g as int) == 0,
                ;
                lemma_zero_reduced(denominator as int);
            }
        }
        Rational {
            numerator: reduced_numerator,
            denominator: reduced_denominator,
            normalized: true,
        }
    }
}

impl core::ops::Add for Rational {
    type Output = Result<Rational, ArithmeticOverflow>;

    /// `+` on rationals is [`Rational::add`].
    fn add(self, rhs: Rational) -> (r: Result<Rational, ArithmeticOverflow>) {
        Rational::add(self, rhs)
    }
}

impl vstd::std_specs::ops::AddSpecImpl for Rational {
    open spec fn obeys_add_spec() -> bool {
        true
    }

    open spec fn add_req(self, rhs: Rational) -> bool {
        true
    }

    open spec fn add_spec(self, rhs: Rational) -> Result<Rational, ArithmeticOverflow> {
        self.checked_sum(rhs)
    }
}

impl core::ops::Mul for Rational {
    type Output = Result<Rational, ArithmeticOverflow>;

    /// `*` on rationals is [`Rational::multiply`].
    fn mul(self, rhs: Rational) -> (r: Result<Rational, ArithmeticOverflow>) {
        self.multiply(rhs)
    }
}

impl vstd::std_specs::ops::MulSpecImpl for Rational {
    open spec fn obeys_mul_spec() -> bool {
        true
    }

    open spec fn mul_req(self, rhs: Rational) -> bool {
        true
    }

    open spec fn mul_spec(self, rhs: Rational) -> Result<Rational, ArithmeticOverflow> {
        self.checked_product(rhs)
    }
}

impl PartialEq for Rational {
    /// `==` on rationals is [`Rational::equals`].
    fn eq(&self, other: &Self) -> (b: bool) {
        self.equals(other)
    }
}

impl Eq for Rational {}

impl vstd::std_specs::cmp::PartialEqSpecImpl for Rational {
    open spec fn obeys_eq_spec() -> bool {
        true
    }

    open spec fn eq_spec(&self, other: &Self) -> bool {
        self@.equal(other@)
    }
}

/// The integer of magnitude `m` that is negative exactly when `negative` is
/// set.
fn with_sign(negative: bool, m: u64) -> (n: i64)
    requires
        m <= i64::MAX || (negative && m == i64::MAX + 1),
    ensures
        n == (if negative {
            -(m as int)
        } else {
            m as int
        }),
{
    if !negative {
        m as i64
    } else if m > i64::MAX as u64 {
        i64::MIN
    } else {
        -(m as i64)
    }
}

/// The product of `a` and `b`, which always fits in 128 bits.
fn widening_product(a: i64, b: u64) -> (p: i128)
    ensures
        p == a * b,
{
    assert(-0x7fff_ffff_ffff_ffff_8000_0000_0000_0000 <= a * b
        <= 0x7fff_ffff_ffff_ffff_8000_0000_0000_0000) by (nonlinear_arith)
        requires
            -0x8000_0000_0000_0000 <= a <= 0x7fff_ffff_ffff_ffff,
            0 <= b <= 0xffff_ffff_ffff_ffff,
    ;
    (a as i128) * (b as i128)
}

/// Normalization is idempotent. The normal form of a well-formed value is
/// well formed, in lowest terms and of the same value; a value that is noted
/// as being in lowest terms is its own normal form, field by field; so the
/// normal form of a normal form is that normal form, field by field.
pub proof fn lemma_normalize_idempotent(r: Rational)
    requires
        r.wf(),
    ensures
        r.normal_form().wf(),
        r.normal_form().is_normalized(),
        r.normal_form()@ == r@.reduced(),
        r.is_normalized() ==> r.normal_form() == r,
        r.normal_form().normal_form() == r.normal_form(),
{
    lemma_reduced_is_reduced(r@);
    lemma_reduced_bounds(r@);
    if r@.reduced().num == 0 {
        lemma_reduced_same_value(r@);
        assert(r@.num == 0) by (nonlinear_arith)
            requires
                r@.reduced().num * r@.den == r@.num * r@.reduced().den,
                r@.reduced().num == 0,
                r@.reduced().den >= 1,
        ;
    }
    if r.is_normalized() {
        lemma_reduced_fixpoint(r@);
    }
}

/// A fraction in lowest terms that fits in 64 bits is what the rational made
/// of it holds.
pub proof fn lemma_in_lowest_terms(f: Fraction)
    requires
        f.fits(),
        f.is_reduced(),
    ensures
        Rational::in_lowest_terms(f)@ == f,
        Rational::in_lowest_terms(f).is_normalized(),
        Rational::in_lowest_terms(f).wf(),
{
    if f.num == 0 {
        lemma_gcd_symmetric(0, f.den as nat);
    }
}

/// An integer reads as a rational exactly as it reads in decimal notation.
pub proof fn lemma_integer_text(n: int)
    ensures
        rational_text(Fraction::from_int(n)) == decimal(n),
{
}

} // verus!
