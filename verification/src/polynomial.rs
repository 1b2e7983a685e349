//! Polynomials with integer coefficients: exact evaluation by Horner's rule
//! and the search for rational roots among the candidates that the rational
//! root theorem leaves.
use crate::decimal::{append_decimal, append_digits, decimal, digits};
use crate::fraction::{
    lemma_reduced_fixpoint, lemma_reduced_is_reduced, lemma_reduced_unique, lemma_zero_reduced,
    Fraction,
};
use crate::number_theory::{lcm, lemma_gcd_with_one, magnitude};
use crate::rational::{ArithmeticOverflow, PositiveU64, Rational};
use crate::root_theorem::{lemma_found_roots_are_roots, lemma_horner_value, lemma_roots_are_found};
use vstd::arithmetic::div_mod::lemma_mod_self_0;
use vstd::arithmetic::power::pow;
use vstd::math::abs;
use vstd::prelude::*;
use vstd::string::StringExecFns;

verus! {

/// A polynomial in one variable. The coefficient of `x^i` stands at index
/// `i`; there is always at least one coefficient.
#[derive(Debug)]
pub struct Polynomial {
    coefficients: Vec<i64>,
}

impl View for Polynomial {
    type V = Seq<i64>;

    closed spec fn view(&self) -> Seq<i64> {
        self.coefficients@
    }
}

/// One step of Horner's rule: `acc * x + c`, or `None` where the product or
/// the sum is refused.
pub open spec fn horner_step(acc: Fraction, x: Fraction, c: int) -> Option<Fraction> {
    match acc.product(x) {
        Some(p) => p.sum(Fraction::from_int(c)),
        None => None,
    }
}

/// Horner's rule on the coefficients from index `i` up: the value at `x` of
/// the polynomial `c[i] + c[i + 1] * x + ...`, built from the highest
/// coefficient down, starting from zero. `None` where a step is refused.
pub open spec fn horner_from(c: Seq<i64>, x: Fraction, i: int) -> Option<Fraction>
    decreases c.len() - i,
{
    if i >= c.len() {
        Some(Fraction::zero())
    } else {
        match horner_from(c, x, i + 1) {
            Some(acc) => horner_step(acc, x, c[i] as int),
            None => None,
        }
    }
}

/// Horner's rule on all the coefficients.
pub open spec fn horner(c: Seq<i64>, x: Fraction) -> Option<Fraction> {
    horner_from(c, x, 0)
}

/// The term of the power `k` of the polynomial `c` at `p / q`, over the
/// denominator `q^(n - 1)` that all `n` terms share: `c[k] * p^k * q^(n - 1 - k)`.
pub open spec fn value_term(c: Seq<i64>, p: int, q: int, k: int) -> int {
    c[k] * pow(p, k as nat) * pow(q, (c.len() - 1 - k) as nat)
}

/// The sum of the terms of the powers below `n`.
pub open spec fn value_sum(c: Seq<i64>, p: int, q: int, n: int) -> int
    decreases n,
{
    if n <= 0 {
        0
    } else {
        value_sum(c, p, q, n - 1) + value_term(c, p, q, n - 1)
    }
}

/// The value at `x` of the polynomial with the coefficients `c`: the sum of
/// `c[k] * x^k` over all `k`, as one fraction over the denominator of `x` to
/// the highest power. The fraction is not reduced.
pub open spec fn value(c: Seq<i64>, x: Fraction) -> Fraction {
    Fraction {
        num: value_sum(c, x.num, x.den, c.len() as int),
        den: pow(x.den, (c.len() - 1) as nat),
    }
}

/// `d` is a positive divisor of `n`.
pub open spec fn is_divisor(d: int, n: int) -> bool {
    1 <= d <= n && n % d == 0
}

/// The fraction `s / q` in lowest terms.
pub open spec fn candidate(s: int, q: int) -> Fraction {
    (Fraction { num: s, den: q }).reduced()
}

/// `f` is a candidate for a rational root of a polynomial with constant term
/// `a0` and leading coefficient `an`: a fraction in lowest terms of a
/// numerator, of either sign, whose magnitude is a positive divisor of `a0`,
/// over a positive divisor of `an`. There is none where `a0` or `an` is zero.
pub open spec fn is_candidate(f: Fraction, a0: int, an: int) -> bool {
    exists|s: int, q: int|
        is_divisor(abs(s) as int, abs(a0) as int) && is_divisor(q, abs(an) as int) && f
            == #[trigger] candidate(s, q)
}

/// All the candidates for a rational root.
pub open spec fn candidate_set(a0: int, an: int) -> Set<Fraction> {
    Set::new(|f: Fraction| is_candidate(f, a0, an))
}

/// The candidates cannot all be held: the magnitude of the constant term is
/// one more than the largest numerator, and it is a candidate's numerator
/// because the leading coefficient has a divisor.
pub open spec fn candidates_overflow(c: Seq<i64>) -> bool {
    c[0] == i64::MIN && c.last() != 0
}

/// The search for rational roots goes through: the candidates can be held and
/// Horner's rule is not refused at any of them.
pub open spec fn search_defined(c: Seq<i64>) -> bool {
    &&& !candidates_overflow(c)
    &&& forall|f: Fraction|
        is_candidate(f, c[0] as int, c.last() as int) ==> (#[trigger] horner(c, f)) is Some
}

/// The candidates at which Horner's rule gives exactly zero.
pub open spec fn root_set(c: Seq<i64>) -> Set<Fraction> {
    Set::new(
        |f: Fraction|
            is_candidate(f, c[0] as int, c.last() as int) && horner(c, f) == Some(
                Fraction::zero(),
            ),
    )
}

/// The fractions that the rationals of `v` hold, in the same order.
pub open spec fn fractions(v: Seq<Rational>) -> Seq<Fraction> {
    v.map_values(|r: Rational| r@)
}

/// Every rational of `v` is well formed and noted as being in lowest terms.
pub open spec fn all_normalized(v: Seq<Rational>) -> bool {
    forall|i: int| 0 <= i < v.len() ==> (#[trigger] v[i]).is_normalized() && v[i].wf()
}

/// One term of a polynomial as text: nothing for a coefficient of zero, else
/// a space, the sign, a space, the magnitude of the coefficient unless it is
/// one, and `x^` with the power.
pub open spec fn term_text(c: int, power: nat) -> Seq<char> {
    if c == 0 {
        Seq::empty()
    } else {
        seq![' ', if c < 0 {
            '-'
        } else {
            '+'
        }, ' '] + (if abs(c) == 1 {
            Seq::empty()
        } else {
            digits(abs(c))
        }) + seq!['x', '^'] + digits(power)
    }
}

/// The terms of the powers from `1` up to, not including, `n`, in ascending
/// order.
pub open spec fn terms_text(c: Seq<i64>, n: int) -> Seq<char>
    decreases n,
{
    if n <= 1 {
        Seq::empty()
    } else {
        terms_text(c, n - 1) + term_text(c[n - 1] as int, (n - 1) as nat)
    }
}

/// A polynomial as text: the constant term in decimal notation, zero or not,
/// then the terms of the higher powers whose coefficient is not zero.
pub open spec fn polynomial_text(c: Seq<i64>) -> Seq<char> {
    decimal(c[0] as int) + terms_text(c, c.len() as int)
}

impl Polynomial {
    /// There is at least one coefficient.
    #[verifier::type_invariant]
    pub open spec fn wf(self) -> bool {
        self@.len() >= 1
    }

    /// The polynomial with the given coefficients, lowest power first. No
    /// coefficients at all give the zero polynomial `[0]`.
    pub fn new(coefficients: Vec<i64>) -> (p: Polynomial)
        ensures
            p@ == (if coefficients@.len() == 0 {
                seq![0i64]
            } else {
                coefficients@
            }),
            p.wf(),
    {
        if coefficients.len() == 0 {
            let mut zero: Vec<i64> = Vec::new();
            zero.push(0i64);
            assert(zero@ =~= seq![0i64]);
            Polynomial { coefficients: zero }
        } else {
            Polynomial { coefficients }
        }
    }

    /// The number of coefficients held. This is one more than the degree
    /// where the highest coefficient is not zero.
    pub fn degree(&self) -> (n: usize)
        ensures
            n == self@.len(),
            n >= 1,
    {
        proof {
            use_type_invariant(self);
        }
        self.coefficients.len()
    }

    /// The value of the polynomial at `x`, in lowest terms, by Horner's rule:
    /// starting from zero, the coefficients are taken from the highest down
    /// and each step multiplies by `x` and adds the coefficient. Where a
    /// product or a sum on the way is refused, so is the value.
    ///
    /// What is returned denotes the value of the polynomial at `x`, the sum
    /// of the terms `c[k] * x^k`.
    pub fn eval(&self, x: Rational) -> (r: Result<Rational, ArithmeticOverflow>)
        ensures
            match r {
                Ok(v) => {
                    &&& horner(self@, x@) == Some(v@)
                    &&& v@.same_value(value(self@, x@))
                    &&& v.is_normalized()
                    &&& v.wf()
                },
                Err(_) => horner(self@, x@) is None,
            },
    {
        let n: usize = self.coefficients.len();
        let mut result = Rational::new_from_int(0);
        let mut i: usize = n;
        while i > 0
            invariant
                0 <= i <= n,
                n == self@.len(),
                horner_from(self@, x@, i as int) == Some(result@),
                result.is_normalized(),
                result.wf(),
            decreases i,
        {
            i -= 1;
            proof {
                if horner_from(self@, x@, i as int) is None {
                    lemma_horner_refusal_spreads(self@, x@, i as int, 0);
                }
            }
            let scaled = match result.multiply(x) {
                Ok(product) => product,
                Err(e) => {
                    return Err(e);
                },
            };
            result = match scaled.add(Rational::new_from_int(self.coefficients[i])) {
                Ok(sum) => sum,
                Err(e) => {
                    return Err(e);
                },
            };
        }
        proof {
            use_type_invariant(self);
            use_type_invariant(&x);
            lemma_horner_value(self@, x@);
        }
        Ok(result)
    }

    /// The candidates for a rational root: for every positive divisor `p` of
    /// the constant term and every positive divisor `q` of the leading
    /// coefficient, `p/q` and `-p/q` in lowest terms, each held once. The
    /// divisors are those of the magnitudes; a constant term or a leading
    /// coefficient of zero has none, and then there is no candidate.
    ///
    /// Refused where the magnitude of the constant term is not a numerator
    /// that fits, which is the case for `i64::MIN` alone.
    pub fn candidates(&self) -> (r: Result<Vec<Rational>, ArithmeticOverflow>)
        ensures
            r is Err <==> candidates_overflow(self@),
            r matches Ok(v) ==> {
                &&& fractions(v@).to_set() == candidate_set(self@[0] as int, self@.last() as int)
                &&& fractions(v@).no_duplicates()
                &&& all_normalized(v@)
                &&& forall|p: int, q: int|
                    is_divisor(p, abs(self@[0] as int) as int) && is_divisor(
                        q,
                        abs(self@.last() as int) as int,
                    ) ==> fractions(v@).contains(#[trigger] candidate(p, q)) && fractions(
                        v@,
                    ).contains(candidate(-p, q))
                &&& forall|i: int, j: int|
                    0 <= i < j < v.len() ==> !(#[trigger] fractions(v@)[i]).same_value(
                        #[trigger] fractions(v@)[j],
                    )
            },
    {
        proof {
            use_type_invariant(self);
        }
        let a0: i64 = self.coefficients[0];
        let an: i64 = self.coefficients[self.coefficients.len() - 1];
        let mut out: Vec<Rational> = Vec::new();
        if a0 == 0 || an == 0 {
            proof {
                assert forall|f: Fraction| !is_candidate(f, a0 as int, an as int) by {}
                assert(fractions(out@).to_set() =~= candidate_set(a0 as int, an as int));
            }
            return Ok(out);
        }
        if a0 == i64::MIN {
            return Err(ArithmeticOverflow);
        }
        let ps = divisors(magnitude(a0));
        let qs = divisors(magnitude(an));
        let mut a: usize = 0;
        while a < ps.len()
            invariant
                0 <= a <= ps.len(),
                a0 != i64::MIN,
                divisor_lists(ps@, qs@, a0 as int, an as int),
                all_normalized(out@),
                fractions(out@).no_duplicates(),
                all_candidates(fractions(out@), a0 as int, an as int),
                covered(ps@, qs@, a as int, 0, fractions(out@)),
            decreases ps.len() - a,
        {
            let p: u64 = ps[a];
            let mut b: usize = 0;
            while b < qs.len()
                invariant
                    0 <= a < ps.len(),
                    0 <= b <= qs.len(),
                    p == ps[a as int],
                    a0 != i64::MIN,
                    divisor_lists(ps@, qs@, a0 as int, an as int),
                    all_normalized(out@),
                    fractions(out@).no_duplicates(),
                    all_candidates(fractions(out@), a0 as int, an as int),
                    covered(ps@, qs@, a as int, b as int, fractions(out@)),
                decreases qs.len() - b,
            {
                let q: u64 = qs[b];
                assert(is_divisor(ps[a as int] as int, abs(a0 as int) as int));
                assert(is_divisor(qs[b as int] as int, abs(an as int) as int));
                let denominator = PositiveU64::new(q).unwrap();
                let positive = Rational::new_normalize(p as i64, denominator);
                let negative = Rational::new_normalize(-(p as i64), denominator);
                let ghost before = fractions(out@);
                push_unique(&mut out, positive);
                let ghost between = fractions(out@);
                push_unique(&mut out, negative);
                proof {
                    let after = fractions(out@);
                    assert(positive@ == candidate(p as int, q as int));
                    assert(negative@ == candidate(-(p as int), q as int));
                    assert(abs(-(p as int)) == p);
                    assert forall|f: Fraction| before.contains(f) implies after.contains(f) by {
                        lemma_push_contains(before, positive@, f);
                        lemma_push_contains(between, negative@, f);
                    }
                    lemma_push_contains(before, positive@, positive@);
                    lemma_push_contains(between, negative@, positive@);
                    lemma_push_contains(between, negative@, negative@);
                    assert forall|k: int| 0 <= k < after.len() implies is_candidate(
                        #[trigger] after[k],
                        a0 as int,
                        an as int,
                    ) by {
                        if k < before.len() {
                            assert(after[k] == before[k]);
                        }
                    }
                    lemma_covered_step(ps@, qs@, a as int, b as int, before, after);
                }
                b += 1;
            }
            proof {
                lemma_covered_row(ps@, qs@, a as int, fractions(out@));
            }
            a += 1;
        }
        proof {
            let held = fractions(out@);
            lemma_covered_all(ps@, qs@, a0 as int, an as int, held);
            assert forall|p: int, q: int|
                is_divisor(p, abs(a0 as int) as int) && is_divisor(
                    q,
                    abs(an as int) as int,
                ) implies held.contains(#[trigger] candidate(p, q)) && held.contains(
                candidate(-p, q),
            ) by {
                lemma_candidates_both_signs(a0 as int, an as int, p, q);
                assert(held.to_set().contains(candidate(p, q)));
                assert(held.to_set().contains(candidate(-p, q)));
            }
            assert forall|i: int, j: int| 0 <= i < j < held.len() implies !(#[trigger] held[i])
                .same_value(#[trigger] held[j]) by {
                assert(held.to_set().contains(held[i]));
                assert(held.to_set().contains(held[j]));
                lemma_candidates_distinct(a0 as int, an as int, held[i], held[j]);
            }
        }
        Ok(out)
    }

    /// The rational roots among the candidates: every candidate at which the
    /// polynomial evaluates to exactly zero, each held once, in lowest terms.
    /// A polynomial whose constant term or leading coefficient is zero has no
    /// candidates, and no roots are found for it.
    ///
    /// Refused where the candidates cannot all be held or where evaluating the
    /// polynomial at one of them is refused.
    ///
    /// The value of the polynomial is zero at each root that is returned.
    /// Where neither the constant term nor the leading coefficient is zero,
    /// no rational root is missed: every fraction in lowest terms at which
    /// the value of the polynomial is zero is returned.
    pub fn find_rational_roots(&self) -> (r: Result<Vec<Rational>, ArithmeticOverflow>)
        ensures
            r is Ok <==> search_defined(self@),
            r matches Ok(roots) ==> {
                &&& fractions(roots@).to_set() == root_set(self@)
                &&& fractions(roots@).no_duplicates()
                &&& all_normalized(roots@)
                &&& forall|i: int|
                    0 <= i < roots.len() ==> value(self@, #[trigger] fractions(roots@)[i]).num
                        == 0
                &&& self@[0] != 0 && self@.last() != 0 ==> forall|x: Fraction|
                    x.is_reduced() && (#[trigger] value(self@, x)).num == 0 ==> fractions(
                        roots@,
                    ).contains(x)
            },
    {
        proof {
            use_type_invariant(self);
        }
        let found = match self.candidates() {
            Ok(found) => found,
            Err(e) => {
                return Err(e);
            },
        };
        let ghost a0 = self@[0] as int;
        let ghost an = self@.last() as int;
        let ghost tried = fractions(found@);
        let mut roots: Vec<Rational> = Vec::new();
        let mut k: usize = 0;
        while k < found.len()
            invariant
                0 <= k <= found.len(),
                a0 == self@[0],
                an == self@.last(),
                tried == fractions(found@),
                tried.to_set() == candidate_set(a0, an),
                tried.no_duplicates(),
                all_normalized(found@),
                all_normalized(roots@),
                sifted(self@, tried, k as int, fractions(roots@)),
            decreases found.len() - k,
        {
            let c = found[k];
            assert(tried[k as int] == c@);
            assert(tried.contains(c@));
            assert(candidate_set(a0, an).contains(c@));
            let result = match self.eval(c) {
                Ok(result) => result,
                Err(e) => {
                    return Err(e);
                },
            };
            proof {
                lemma_gcd_with_one(0);
                lemma_reduced_fixpoint(result@);
                lemma_reduced_fixpoint(Fraction::zero());
            }
            let ghost before = fractions(roots@);
            if result == Rational::zero() {
                roots.push(c);
                proof {
                    assert(fractions(roots@) =~= before.push(c@));
                    lemma_sifted_root(self@, tried, k as int, before);
                }
            } else {
                proof {
                    lemma_sifted_other(self@, tried, k as int, before);
                }
            }
            k += 1;
        }
        proof {
            let held = fractions(roots@);
            lemma_sifted_all(self@, tried, held);
            assert forall|i: int| 0 <= i < held.len() implies value(self@, #[trigger] held[i]).num
                == 0 by {
                assert(held.contains(held[i]));
                assert(held.to_set().contains(held[i]));
                lemma_found_roots_are_roots(self@, held[i]);
            }
            if self@[0] != 0 && self@.last() != 0 {
                assert forall|x: Fraction|
                    x.is_reduced() && (#[trigger] value(self@, x)).num == 0 implies held.contains(
                    x,
                ) by {
                    lemma_roots_are_found(self@, x);
                    assert(held.to_set().contains(x));
                }
            }
        }
        Ok(roots)
    }

    /// The polynomial as text, lowest power first: `6 - 7x^1 + x^3` for the
    /// coefficients `[6, -7, 0, 1]`.
    pub fn to_string(&self) -> (s: String)
        ensures
            s@ == polynomial_text(self@),
    {
        proof {
            use_type_invariant(self);
            reveal_strlit(" - ");
            reveal_strlit(" + ");
            reveal_strlit("x^");
        }
        let mut text = String::new();
        append_decimal(&mut text, self.coefficients[0]);
        assert(text@ =~= decimal(self@[0] as int));
        let mut i: usize = 1;
        while i < self.coefficients.len()
            invariant
                1 <= i <= self@.len(),
                text@ == decimal(self@[0] as int) + terms_text(self@, i as int),
                " - "@ == seq![' ', '-', ' '],
                " + "@ == seq![' ', '+', ' '],
                "x^"@ == seq!['x', '^'],
            decreases self@.len() - i,
        {
            let c: i64 = self.coefficients[i];
            let ghost before = text@;
            if c != 0 {
                if c < 0 {
                    text.append(" - ");
                } else {
                    text.append(" + ");
                }
                let m: u64 = magnitude(c);
                if m != 1 {
                    append_digits(&mut text, m);
                }
                text.append("x^");
                append_digits(&mut text, i as u64);
            }
            assert(text@ =~= before + term_text(c as int, i as nat));
            assert(text@ =~= decimal(self@[0] as int) + terms_text(self@, i as int + 1));
            i += 1;
        }
        text
    }
}

/// The positive divisors of `n` in ascending order, found by trying every
/// number from `1` to `n`. Zero has none.
pub fn divisors(n: u64) -> (r: Vec<u64>)
    ensures
        forall|i: int| 0 <= i < r.len() ==> is_divisor(#[trigger] r[i] as int, n as int),
        forall|i: int, j: int| 0 <= i < j < r.len() ==> r[i] < r[j],
        forall|d: u64| is_divisor(d as int, n as int) ==> r@.contains(d),
{
    let mut found: Vec<u64> = Vec::new();
    if n == 0 {
        return found;
    }
    let mut i: u64 = 1;
    while i < n
        invariant
            1 <= i <= n,
            forall|k: int|
                0 <= k < found.len() ==> is_divisor(#[trigger] found[k] as int, n as int),
            forall|k: int| 0 <= k < found.len() ==> #[trigger] found[k] < i,
            forall|k: int, j: int| 0 <= k < j < found.len() ==> found[k] < found[j],
            forall|d: u64| d < i && is_divisor(d as int, n as int) ==> found@.contains(d),
        decreases n - i,
    {
        if n % i == 0 {
            let ghost before = found@;
            found.push(i);
            proof {
                assert(found@[before.len() as int] == i);
                assert forall|d: u64|
                    d < i + 1 && is_divisor(d as int, n as int) implies found@.contains(d) by {
                    if d < i {
                        let k = choose|k: int| 0 <= k < before.len() && before[k] == d;
                        assert(found@[k] == d);
                    }
                }
            }
        }
        i += 1;
    }
    let ghost before = found@;
    found.push(n);
    proof {
        lemma_mod_self_0(n as int);
        assert(found@[before.len() as int] == n);
        assert forall|d: u64| is_divisor(d as int, n as int) implies found@.contains(d) by {
            if d < n {
                let k = choose|k: int| 0 <= k < before.len() && before[k] == d;
                assert(found@[k] == d);
            }
        }
    }
    found
}

/// Adds `c` to `v` unless `v` holds it already.
fn push_unique(v: &mut Vec<Rational>, c: Rational)
    requires
        all_normalized(old(v)@),
        fractions(old(v)@).no_duplicates(),
        c.is_normalized(),
        c.wf(),
    ensures
        all_normalized(final(v)@),
        fractions(final(v)@).no_duplicates(),
        fractions(final(v)@) == (if fractions(old(v)@).contains(c@) {
            fractions(old(v)@)
        } else {
            fractions(old(v)@).push(c@)
        }),
{
    let mut i: usize = 0;
    while i < v.len()
        invariant
            0 <= i <= v.len(),
            *v == *old(v),
            all_normalized(v@),
            fractions(v@).no_duplicates(),
            c.is_normalized(),
            c.wf(),
            forall|k: int| 0 <= k < i ==> fractions(v@)[k] != c@,
        decreases v.len() - i,
    {
        proof {
            assert(v@[i as int].is_normalized() && v@[i as int].wf());
            lemma_reduced_fixpoint(v@[i as int]@);
            lemma_reduced_fixpoint(c@);
        }
        if v[i].equals(&c) {
            assert(fractions(v@)[i as int] == c@);
            return ;
        }
        i += 1;
    }
    v.push(c);
    proof {
        assert(fractions(v@) =~= fractions(old(v)@).push(c@));
    }
}

/// `ps` and `qs` hold the positive divisors of `a0` and of `an`, all of them.
spec fn divisor_lists(ps: Seq<u64>, qs: Seq<u64>, a0: int, an: int) -> bool {
    &&& forall|i: int| 0 <= i < ps.len() ==> is_divisor(#[trigger] ps[i] as int, abs(a0) as int)
    &&& forall|i: int| 0 <= i < qs.len() ==> is_divisor(#[trigger] qs[i] as int, abs(an) as int)
    &&& forall|d: u64| is_divisor(d as int, abs(a0) as int) ==> ps.contains(d)
    &&& forall|d: u64| is_divisor(d as int, abs(an) as int) ==> qs.contains(d)
}

/// Everything in `held` is a candidate.
spec fn all_candidates(held: Seq<Fraction>, a0: int, an: int) -> bool {
    forall|k: int| 0 <= k < held.len() ==> is_candidate(#[trigger] held[k], a0, an)
}

/// The pairs of divisors before position `(a, b)`, in the order in which the
/// candidates are built, have both their candidates in `held`.
spec fn covered(ps: Seq<u64>, qs: Seq<u64>, a: int, b: int, held: Seq<Fraction>) -> bool {
    forall|x: int, y: int|
        0 <= x < ps.len() && 0 <= y < qs.len() && (x < a || (x == a && y < b)) ==> held.contains(
            #[trigger] candidate(ps[x] as int, qs[y] as int),
        ) && held.contains(candidate(-(ps[x] as int), qs[y] as int))
}

/// The first `k` of the fractions `tried` have been sifted into `roots`:
/// Horner's rule is refused at none of them, `roots` holds those at which it
/// gives zero and nothing else, and it holds nothing twice.
spec fn sifted(c: Seq<i64>, tried: Seq<Fraction>, k: int, roots: Seq<Fraction>) -> bool {
    &&& roots.no_duplicates()
    &&& forall|i: int|
        0 <= i < roots.len() ==> horner(c, #[trigger] roots[i]) == Some(Fraction::zero())
    &&& forall|i: int|
        0 <= i < roots.len() ==> exists|j: int| 0 <= j < k && tried[j] == #[trigger] roots[i]
    &&& forall|j: int|
        0 <= j < k ==> (#[trigger] horner(c, tried[j])) is Some && (horner(c, tried[j]) == Some(
            Fraction::zero(),
        ) ==> roots.contains(tried[j]))
}

/// What a sequence holds it still holds after a push, and it holds what was
/// pushed.
proof fn lemma_push_contains(s: Seq<Fraction>, c: Fraction, f: Fraction)
    ensures
        s.push(c).contains(c),
        s.contains(f) ==> s.push(c).contains(f),
{
    assert(s.push(c)[s.len() as int] == c);
    if s.contains(f) {
        let i = choose|i: int| 0 <= i < s.len() && s[i] == f;
        assert(s.push(c)[i] == f);
    }
}

/// Once both candidates of the pair at `(a, b)` are held, the pairs before
/// `(a, b + 1)` are covered.
proof fn lemma_covered_step(
    ps: Seq<u64>,
    qs: Seq<u64>,
    a: int,
    b: int,
    before: Seq<Fraction>,
    after: Seq<Fraction>,
)
    requires
        0 <= a < ps.len(),
        0 <= b < qs.len(),
        covered(ps, qs, a, b, before),
        forall|f: Fraction| before.contains(f) ==> after.contains(f),
        after.contains(candidate(ps[a] as int, qs[b] as int)),
        after.contains(candidate(-(ps[a] as int), qs[b] as int)),
    ensures
        covered(ps, qs, a, b + 1, after),
{
    assert forall|x: int, y: int|
        0 <= x < ps.len() && 0 <= y < qs.len() && (x < a || (x == a && y < b + 1)) implies
        after.contains(#[trigger] candidate(ps[x] as int, qs[y] as int)) && after.contains(
        candidate(-(ps[x] as int), qs[y] as int),
    ) by {
        if !(x == a && y == b) {
            assert(before.contains(candidate(ps[x] as int, qs[y] as int)));
            assert(before.contains(candidate(-(ps[x] as int), qs[y] as int)));
        }
    }
}

/// Once the pairs of a whole row are covered, the pairs before the next row
/// are.
proof fn lemma_covered_row(ps: Seq<u64>, qs: Seq<u64>, a: int, held: Seq<Fraction>)
    requires
        covered(ps, qs, a, qs.len() as int, held),
    ensures
        covered(ps, qs, a + 1, 0, held),
{
    assert forall|x: int, y: int|
        0 <= x < ps.len() && 0 <= y < qs.len() && (x < a + 1 || (x == a + 1 && y < 0)) implies
        held.contains(#[trigger] candidate(ps[x] as int, qs[y] as int)) && held.contains(
        candidate(-(ps[x] as int), qs[y] as int),
    ) by {
        assert(x < a || (x == a && y < qs.len()));
    }
}

/// Once every pair of divisors is covered and nothing but candidates is
/// held, what is held is the set of candidates.
proof fn lemma_covered_all(ps: Seq<u64>, qs: Seq<u64>, a0: int, an: int, held: Seq<Fraction>)
    requires
        i64::MIN < a0 <= i64::MAX,
        i64::MIN <= an <= i64::MAX,
        divisor_lists(ps, qs, a0, an),
        all_candidates(held, a0, an),
        covered(ps, qs, ps.len() as int, 0, held),
    ensures
        held.to_set() == candidate_set(a0, an),
{
    assert forall|f: Fraction| is_candidate(f, a0, an) implies held.contains(f) by {
        let (s, q) = choose|s: int, q: int|
            is_divisor(abs(s) as int, abs(a0) as int) && is_divisor(q, abs(an) as int) && f
                == #[trigger] candidate(s, q);
        assert(ps.contains(abs(s) as u64));
        assert(qs.contains(q as u64));
        let x = choose|x: int| 0 <= x < ps.len() && ps[x] == abs(s) as u64;
        let y = choose|y: int| 0 <= y < qs.len() && qs[y] == q as u64;
        assert(held.contains(candidate(ps[x] as int, qs[y] as int)));
    }
    assert(held.to_set() =~= candidate_set(a0, an));
}

/// Sifting goes on by one fraction at which Horner's rule gives zero: it is
/// pushed.
proof fn lemma_sifted_root(c: Seq<i64>, tried: Seq<Fraction>, k: int, roots: Seq<Fraction>)
    requires
        0 <= k < tried.len(),
        tried.no_duplicates(),
        sifted(c, tried, k, roots),
        horner(c, tried[k]) == Some(Fraction::zero()),
    ensures
        sifted(c, tried, k + 1, roots.push(tried[k])),
{
    let after = roots.push(tried[k]);
    assert forall|i: int| 0 <= i < after.len() implies exists|j: int|
        0 <= j < k + 1 && tried[j] == #[trigger] after[i] by {
        if i < roots.len() {
            let j = choose|j: int| 0 <= j < k && tried[j] == roots[i];
            assert(tried[j] == after[i]);
        } else {
            assert(tried[k] == after[i]);
        }
    }
    assert forall|i: int, j: int|
        0 <= i < after.len() && 0 <= j < after.len() && i != j implies after[i] != after[j] by {
        if i < roots.len() && j < roots.len() {
            assert(after[i] == roots[i] && after[j] == roots[j]);
        } else if i < roots.len() {
            let w = choose|w: int| 0 <= w < k && tried[w] == roots[i];
            assert(tried[w] != tried[k]);
        } else if j < roots.len() {
            let w = choose|w: int| 0 <= w < k && tried[w] == roots[j];
            assert(tried[w] != tried[k]);
        }
    }
    assert forall|j: int| 0 <= j < k + 1 implies (#[trigger] horner(c, tried[j])) is Some && (
    horner(c, tried[j]) == Some(Fraction::zero()) ==> after.contains(tried[j])) by {
        lemma_push_contains(roots, tried[k], tried[j]);
    }
}

/// Sifting goes on by one fraction at which Horner's rule gives something
/// other than zero: it is passed over.
proof fn lemma_sifted_other(c: Seq<i64>, tried: Seq<Fraction>, k: int, roots: Seq<Fraction>)
    requires
        0 <= k < tried.len(),
        sifted(c, tried, k, roots),
        horner(c, tried[k]) is Some,
        horner(c, tried[k]) != Some(Fraction::zero()),
    ensures
        sifted(c, tried, k + 1, roots),
{
    assert forall|i: int| 0 <= i < roots.len() implies exists|j: int|
        0 <= j < k + 1 && tried[j] == #[trigger] roots[i] by {
        let j = choose|j: int| 0 <= j < k && tried[j] == roots[i];
        assert(tried[j] == roots[i]);
    }
}

/// Once all the candidates have been sifted, the search is defined and what
/// was kept is the set of roots.
proof fn lemma_sifted_all(c: Seq<i64>, tried: Seq<Fraction>, roots: Seq<Fraction>)
    requires
        !candidates_overflow(c),
        tried.to_set() == candidate_set(c[0] as int, c.last() as int),
        sifted(c, tried, tried.len() as int, roots),
    ensures
        search_defined(c),
        roots.to_set() == root_set(c),
{
    let a0 = c[0] as int;
    let an = c.last() as int;
    assert forall|f: Fraction| roots.contains(f) <==> root_set(c).contains(f) by {
        if roots.contains(f) {
            let i = choose|i: int| 0 <= i < roots.len() && roots[i] == f;
            let j = choose|j: int| 0 <= j < tried.len() && tried[j] == roots[i];
            assert(tried.contains(f));
            assert(candidate_set(a0, an).contains(f));
        }
        if root_set(c).contains(f) {
            assert(candidate_set(a0, an).contains(f));
            assert(tried.to_set().contains(f));
            let j = choose|j: int| 0 <= j < tried.len() && tried[j] == f;
            assert(roots.contains(tried[j]));
        }
    }
    assert(roots.to_set() =~= root_set(c));
    assert forall|f: Fraction| is_candidate(f, a0, an) implies (#[trigger] horner(c, f))
        is Some by {
        assert(candidate_set(a0, an).contains(f));
        assert(tried.to_set().contains(f));
        let j = choose|j: int| 0 <= j < tried.len() && tried[j] == f;
        assert(horner(c, tried[j]) is Some);
    }
}

/// Once a step of Horner's rule is refused, every later step is.
pub proof fn lemma_horner_refusal_spreads(c: Seq<i64>, x: Fraction, i: int, j: int)
    requires
        0 <= j <= i,
        horner_from(c, x, i) is None,
    ensures
        horner_from(c, x, j) is None,
    decreases i - j,
{
    if j < i {
        lemma_horner_refusal_spreads(c, x, i, j + 1);
    }
}

/// The zero polynomial is zero everywhere: where every coefficient is zero,
/// Horner's rule gives `0/1` at every rational that fits in 64 bits, and no
/// step is refused.
pub proof fn lemma_zero_polynomial(c: Seq<i64>, x: Fraction)
    requires
        x.fits(),
        forall|i: int| 0 <= i < c.len() ==> c[i] == 0,
    ensures
        horner(c, x) == Some(Fraction::zero()),
{
    lemma_zero_polynomial_from(c, x, 0);
}

/// The zero polynomial is zero everywhere, from any index up.
proof fn lemma_zero_polynomial_from(c: Seq<i64>, x: Fraction, i: int)
    requires
        x.fits(),
        0 <= i,
        forall|k: int| 0 <= k < c.len() ==> c[k] == 0,
    ensures
        horner_from(c, x, i) == Some(Fraction::zero()),
    decreases c.len() - i,
{
    if i < c.len() {
        lemma_zero_polynomial_from(c, x, i + 1);
        let zero = Fraction::zero();
        assert(zero.raw_product(x) == Fraction { num: 0, den: x.den }) by (nonlinear_arith)
            requires
                zero == (Fraction { num: 0, den: 1 }),
                zero.raw_product(x) == (Fraction { num: zero.num * x.num, den: zero.den * x.den }),
        ;
        lemma_zero_reduced(x.den);
        assert(zero.product(x) == Some(zero));
        lemma_gcd_with_one(1);
        assert(lcm(1, 1) == 1);
        assert(zero.raw_sum(Fraction::from_int(0)) == zero);
        lemma_zero_reduced(1);
    }
}

/// Both signs of every pair of divisors are candidates.
pub proof fn lemma_candidates_both_signs(a0: int, an: int, p: int, q: int)
    requires
        is_divisor(p, abs(a0) as int),
        is_divisor(q, abs(an) as int),
    ensures
        candidate_set(a0, an).contains(candidate(p, q)),
        candidate_set(a0, an).contains(candidate(-p, q)),
{
    assert(is_candidate(candidate(p, q), a0, an));
    assert(abs(-p) == p);
    assert(is_candidate(candidate(-p, q), a0, an));
}

/// Every candidate is in lowest terms, so no two different candidates denote
/// the same rational number.
pub proof fn lemma_candidates_distinct(a0: int, an: int, f: Fraction, g: Fraction)
    requires
        candidate_set(a0, an).contains(f),
        candidate_set(a0, an).contains(g),
        f != g,
    ensures
        f.is_reduced(),
        g.is_reduced(),
        !f.same_value(g),
{
    let (s, q) = choose|s: int, q: int|
        is_divisor(abs(s) as int, abs(a0) as int) && is_divisor(q, abs(an) as int) && f
            == #[trigger] candidate(s, q);
    lemma_reduced_is_reduced(Fraction { num: s, den: q });
    let (t, r) = choose|t: int, r: int|
        is_divisor(abs(t) as int, abs(a0) as int) && is_divisor(r, abs(an) as int) && g
            == #[trigger] candidate(t, r);
    lemma_reduced_is_reduced(Fraction { num: t, den: r });
    if f.same_value(g) {
        lemma_reduced_unique(f, g);
    }
}

} // verus!
