//! Exact rational roots of polynomials with integer coefficients.
//!
//! A [`polynomial::Polynomial`] is built from its coefficients, evaluated at
//! a [`rational::Rational`] by Horner's rule, and searched for rational roots
//! among the candidates that the rational root theorem leaves. All arithmetic
//! is exact: rationals are held in 64-bit integers, results come in lowest
//! terms, and a value that does not fit is refused instead of wrapped.
//!
//! The crate is built from the bottom up:
//!
//! * [`number_theory`] states what greatest common divisors and least common
//!   multiples are, proves the facts about them that fractions rest on, and
//!   computes both;
//! * [`fraction`] is the mathematical model of a fraction of two integers,
//!   with the laws of its equality and arithmetic;
//! * [`decimal`] writes integers in decimal notation;
//! * [`rational`] is the executable rational number;
//! * [`polynomial`] holds integer coefficients, evaluates them and searches
//!   for rational roots;
//! * [`root_theorem`] proves that Horner's rule computes the value of the
//!   polynomial and that the search misses no rational root.
pub mod decimal;
pub mod fraction;
pub mod number_theory;
pub mod polynomial;
pub mod rational;
pub mod root_theorem;
