//! Divisibility, greatest common divisors and least common multiples of
//! natural numbers.
//!
//! The greatest common divisor and the least common multiple are first stated
//! as predicates ([`is_gcd`], [`is_lcm`]) in the lattice of divisibility, which
//! is how they are usually documented. [`gcd`] and [`lcm`] then give the one
//! number that meets each predicate, and the lemmas of this module derive what
//! the arithmetic of fractions needs from them.
use vstd::arithmetic::div_mod::{
    lemma_fundamental_div_mod, lemma_mod_bound, lemma_mod_multiples_vanish, lemma_small_mod,
};
use vstd::arithmetic::power::{lemma_pow0, pow};
use vstd::math::abs;
use vstd::prelude::*;

verus! {

/// `d` divides `n`. Zero divides zero and nothing else.
pub open spec fn divides(d: nat, n: nat) -> bool {
    if d == 0 {
        n == 0
    } else {
        n % d == 0
    }
}

/// `g` is the greatest common divisor of `a` and `b`: it divides both, and
/// every number that divides both divides `g`. For `a == b == 0` this is `0`.
pub open spec fn is_gcd(g: nat, a: nat, b: nat) -> bool {
    &&& divides(g, a)
    &&& divides(g, b)
    &&& forall|d: nat| divides(d, a) && divides(d, b) ==> #[trigger] divides(d, g)
}

/// `l` is the least common multiple of `a` and `b`: both divide it, and it
/// divides every number that both divide. If `a` or `b` is `0` this is `0`.
pub open spec fn is_lcm(l: nat, a: nat, b: nat) -> bool {
    &&& divides(a, l)
    &&& divides(b, l)
    &&& forall|m: nat| divides(a, m) && divides(b, m) ==> #[trigger] divides(l, m)
}

/// The greatest common divisor, by Euclid's recursion.
pub open spec fn gcd(a: nat, b: nat) -> nat
    decreases b,
{
    if b == 0 {
        a
    } else {
        gcd(b, a % b)
    }
}

/// The least common multiple.
pub open spec fn lcm(a: nat, b: nat) -> nat {
    if a == 0 || b == 0 {
        0
    } else {
        (a / gcd(a, b)) * b
    }
}

/// Two numbers are coprime when `1` is their greatest common divisor.
pub open spec fn coprime(a: nat, b: nat) -> bool {
    gcd(a, b) == 1
}

/// The first Bezout coefficient of `a` and `b`.
pub open spec fn bezout_x(a: nat, b: nat) -> int
    decreases b,
{
    if b == 0 {
        1
    } else {
        bezout_y(b, a % b)
    }
}

/// The second Bezout coefficient of `a` and `b`.
pub open spec fn bezout_y(a: nat, b: nat) -> int
    decreases b,
{
    if b == 0 {
        0
    } else {
        bezout_x(b, a % b) - (a / b) * bezout_y(b, a % b)
    }
}

/// Any multiple of a positive `d` leaves no remainder.
pub proof fn lemma_multiple_mod(d: int, k: int)
    requires
        d > 0,
    ensures
        (d * k) % d == 0,
{
    lemma_mod_multiples_vanish(k, 0, d);
    lemma_small_mod(0, d as nat);
}

/// A number that `d` divides is `d` times its quotient by `d`.
pub proof fn lemma_divides_quotient(d: nat, n: nat)
    requires
        d > 0,
        divides(d, n),
    ensures
        n == d * (n / d),
{
    lemma_fundamental_div_mod(n as int, d as int);
}

/// `d` divides each of its multiples.
pub proof fn lemma_divides_multiple(d: nat, k: nat)
    ensures
        divides(d, d * k),
{
    if d > 0 {
        lemma_multiple_mod(d as int, k as int);
    } else {
        assert(d * k == 0) by (nonlinear_arith)
            requires
                d == 0,
        ;
    }
}

/// A positive number is at least as large as each of its divisors.
pub proof fn lemma_divisor_bound(d: nat, n: nat)
    requires
        n > 0,
        divides(d, n),
    ensures
        1 <= d <= n,
{
    lemma_divides_quotient(d, n);
    let q = n / d;
    assert(q >= 1 && d <= n) by (nonlinear_arith)
        requires
            n == d * q,
            n > 0,
            d > 0,
            q >= 0,
    ;
}

/// Two natural numbers that divide each other are equal.
pub proof fn lemma_divides_antisymmetric(a: nat, b: nat)
    requires
        divides(a, b),
        divides(b, a),
    ensures
        a == b,
{
    if a > 0 && b > 0 {
        lemma_divisor_bound(a, b);
        lemma_divisor_bound(b, a);
    }
}

/// A positive `d` that divides `x` and `y` divides `x + k * y` for every
/// integer `k`.
pub proof fn lemma_mod_linear(d: int, x: int, y: int, k: int)
    requires
        d > 0,
        x % d == 0,
        y % d == 0,
    ensures
        (x + k * y) % d == 0,
{
    lemma_fundamental_div_mod(x, d);
    lemma_fundamental_div_mod(y, d);
    let p = x / d;
    let q = y / d;
    assert(x + k * y == d * (p + k * q)) by (nonlinear_arith)
        requires
            x == d * p,
            y == d * q,
    ;
    lemma_multiple_mod(d, p + k * q);
}

/// A positive number that divides `c` divides the magnitude of `c`.
pub proof fn lemma_divides_magnitude(d: nat, c: int)
    requires
        d >= 1,
        c % (d as int) == 0,
    ensures
        divides(d, abs(c)),
{
    if c < 0 {
        lemma_multiple_mod(d as int, 0);
        lemma_mod_linear(d as int, 0, c, -1);
    }
}

/// `b^(e + 1)` is `b * b^e`.
pub proof fn lemma_pow_unfold(b: int, e: nat)
    ensures
        pow(b, e + 1) == b * pow(b, e),
{
    reveal(pow);
}

/// The result of Euclid's recursion divides both arguments.
pub proof fn lemma_gcd_divides(a: nat, b: nat)
    ensures
        divides(gcd(a, b), a),
        divides(gcd(a, b), b),
    decreases b,
{
    if b == 0 {
        if a > 0 {
            lemma_multiple_mod(a as int, 1);
            lemma_multiple_mod(a as int, 0);
        }
    } else {
        let g = gcd(b, a % b);
        lemma_gcd_divides(b, a % b);
        lemma_fundamental_div_mod(a as int, b as int);
        lemma_mod_bound(a as int, b as int);
        assert(g > 0);
        lemma_mod_linear(g as int, (a % b) as int, b as int, (a / b) as int);
        assert((a % b) + (a / b) * b == a) by (nonlinear_arith)
            requires
                a == b * (a / b) + (a % b),
        ;
    }
}

/// Every common divisor divides the result of Euclid's recursion.
pub proof fn lemma_gcd_greatest(a: nat, b: nat, d: nat)
    requires
        divides(d, a),
        divides(d, b),
    ensures
        divides(d, gcd(a, b)),
    decreases b,
{
    if b > 0 {
        lemma_fundamental_div_mod(a as int, b as int);
        lemma_mod_bound(a as int, b as int);
        assert(d > 0);
        let q = (a / b) as int;
        let r = (a % b) as int;
        lemma_mod_linear(d as int, a as int, b as int, -q);
        assert(a + (-q) * b == r) by (nonlinear_arith)
            requires
                a == b * q + r,
        ;
        lemma_gcd_greatest(b, a % b, d);
    }
}

/// Euclid's recursion computes the greatest common divisor.
pub proof fn lemma_gcd_is_gcd(a: nat, b: nat)
    ensures
        is_gcd(gcd(a, b), a, b),
{
    lemma_gcd_divides(a, b);
    assert forall|d: nat| divides(d, a) && divides(d, b) implies #[trigger] divides(
        d,
        gcd(a, b),
    ) by {
        lemma_gcd_greatest(a, b, d);
    }
}

/// Two numbers have one greatest common divisor only.
pub proof fn lemma_is_gcd_unique(g: nat, a: nat, b: nat)
    requires
        is_gcd(g, a, b),
    ensures
        g == gcd(a, b),
{
    lemma_gcd_is_gcd(a, b);
    assert(divides(g, gcd(a, b)));
    assert(divides(gcd(a, b), g));
    lemma_divides_antisymmetric(g, gcd(a, b));
}

/// The greatest common divisor does not depend on the order of its arguments.
pub proof fn lemma_gcd_symmetric(a: nat, b: nat)
    ensures
        gcd(a, b) == gcd(b, a),
{
    lemma_gcd_is_gcd(b, a);
    let g = gcd(b, a);
    assert(is_gcd(g, a, b)) by {
        assert forall|d: nat| divides(d, a) && divides(d, b) implies #[trigger] divides(d, g) by {
            lemma_gcd_greatest(b, a, d);
        }
    }
    lemma_is_gcd_unique(g, a, b);
}

/// The greatest common divisor is positive unless both arguments are zero,
/// and then it is no larger than a positive argument.
pub proof fn lemma_gcd_positive(a: nat, b: nat)
    requires
        a > 0 || b > 0,
    ensures
        gcd(a, b) >= 1,
        a > 0 ==> gcd(a, b) <= a,
        b > 0 ==> gcd(a, b) <= b,
{
    lemma_gcd_divides(a, b);
    if a > 0 {
        lemma_divisor_bound(gcd(a, b), a);
    }
    if b > 0 {
        lemma_divisor_bound(gcd(a, b), b);
    }
}

/// One is the greatest common divisor of any number and one.
pub proof fn lemma_gcd_with_one(m: nat)
    ensures
        gcd(m, 1) == 1,
{
    lemma_gcd_divides(m, 1);
    lemma_gcd_positive(m, 1);
}

/// Bezout's identity: the greatest common divisor is an integer combination
/// of the two numbers.
pub proof fn lemma_bezout(a: nat, b: nat)
    ensures
        gcd(a, b) == bezout_x(a, b) * a + bezout_y(a, b) * b,
    decreases b,
{
    if b == 0 {
        assert(1 * a + 0 * b == a);
    } else {
        let r = a % b;
        let q = a / b;
        lemma_bezout(b, r);
        lemma_fundamental_div_mod(a as int, b as int);
        lemma_mod_bound(a as int, b as int);
        let x = bezout_x(b, r);
        let y = bezout_y(b, r);
        assert(x * b + y * r == y * a + (x - q * y) * b) by (nonlinear_arith)
            requires
                a == b * q + r,
        ;
    }
}

/// Euclid's lemma for integers of either sign: a positive number that
/// divides `b * c` and is coprime to the magnitude of `b` divides `c`.
pub proof fn lemma_coprime_cancels(a: nat, b: int, c: int)
    requires
        a >= 1,
        coprime(a, abs(b)),
        (b * c) % (a as int) == 0,
    ensures
        c % (a as int) == 0,
{
    let m = abs(b) as int;
    lemma_bezout(a, abs(b));
    let x = bezout_x(a, abs(b));
    let y = bezout_y(a, abs(b));
    let s: int = if b < 0 {
        -1
    } else {
        1
    };
    let bc = b * c;
    // c == a * (x * c) + (y * s) * (b * c), and a divides both terms.
    lemma_multiple_mod(a as int, x * c);
    lemma_mod_linear(a as int, a * (x * c), bc, y * s);
    assert(a * (x * c) + (y * s) * bc == c) by (nonlinear_arith)
        requires
            1 == x * a + y * m,
            m == s * b,
            bc == b * c,
    ;
}

/// A positive number that divides `b^n * c` and is coprime to the magnitude
/// of `b` divides `c`.
pub proof fn lemma_coprime_cancels_power(a: nat, b: int, n: nat, c: int)
    requires
        a >= 1,
        coprime(a, abs(b)),
        (pow(b, n) * c) % (a as int) == 0,
    ensures
        c % (a as int) == 0,
    decreases n,
{
    if n == 0 {
        lemma_pow0(b);
        assert(pow(b, n) * c == c) by (nonlinear_arith)
            requires
                pow(b, n) == 1,
        ;
    } else {
        let rest = pow(b, (n - 1) as nat);
        lemma_pow_unfold(b, (n - 1) as nat);
        assert(pow(b, n) * c == b * (rest * c)) by (nonlinear_arith)
            requires
                pow(b, n) == b * rest,
        ;
        lemma_coprime_cancels(a, b, rest * c);
        lemma_coprime_cancels_power(a, b, (n - 1) as nat, c);
    }
}

/// Euclid's lemma: a number that divides a product and is coprime to one
/// factor divides the other factor.
pub proof fn lemma_coprime_divides_product(a: nat, b: nat, c: nat)
    requires
        coprime(a, b),
        divides(a, b * c),
    ensures
        divides(a, c),
{
    if a == 0 {
        // gcd(0, b) is b, so b is 1 and the product is c.
        lemma_gcd_symmetric(0, b);
        assert(b * c == c) by (nonlinear_arith)
            requires
                b == 1,
        ;
    } else {
        lemma_coprime_cancels(a, b as int, c as int);
    }
}

/// Dividing two numbers by their greatest common divisor leaves coprime
/// numbers.
pub proof fn lemma_gcd_quotients_coprime(a: nat, b: nat)
    requires
        a > 0 || b > 0,
    ensures
        coprime(a / gcd(a, b), b / gcd(a, b)),
{
    let g = gcd(a, b);
    lemma_gcd_positive(a, b);
    lemma_gcd_divides(a, b);
    lemma_divides_quotient(g, a);
    lemma_divides_quotient(g, b);
    lemma_bezout(a, b);
    let x = bezout_x(a, b);
    let y = bezout_y(a, b);
    let p = a / g;
    let q = b / g;
    assert(x * p + y * q == 1) by (nonlinear_arith)
        requires
            g == x * a + y * b,
            a == g * p,
            b == g * q,
            g > 0,
    ;
    let h = gcd(p, q);
    lemma_gcd_divides(p, q);
    if h == 0 {
        assert(p == 0 && q == 0);
        assert(x * p + y * q == 0) by (nonlinear_arith)
            requires
                p == 0,
                q == 0,
        ;
    } else {
        lemma_multiple_mod(h as int, 0);
        lemma_mod_linear(h as int, 0, p as int, x);
        lemma_mod_linear(h as int, x * p, q as int, y);
        assert(1int % (h as int) == 0);
        if h > 1 {
            lemma_small_mod(1, h);
        }
    }
}

/// The least common multiple is a common multiple that divides every other.
pub proof fn lemma_lcm_is_lcm(a: nat, b: nat)
    ensures
        is_lcm(lcm(a, b), a, b),
{
    if a == 0 || b == 0 {
        assert forall|m: nat| divides(a, m) && divides(b, m) implies #[trigger] divides(
            lcm(a, b),
            m,
        ) by {}
    } else {
        let g = gcd(a, b);
        lemma_gcd_positive(a, b);
        lemma_gcd_divides(a, b);
        lemma_divides_quotient(g, a);
        lemma_divides_quotient(g, b);
        let p = a / g;
        let q = b / g;
        let l = lcm(a, b);
        assert(l == p * b);
        assert(l == a * q && l == b * p) by (nonlinear_arith)
            requires
                l == p * b,
                a == g * p,
                b == g * q,
        ;
        lemma_divides_multiple(a, q);
        lemma_divides_multiple(b, p);
        lemma_gcd_quotients_coprime(a, b);
        assert forall|m: nat| divides(a, m) && divides(b, m) implies #[trigger] divides(l, m) by {
            // m == a * u == b * v, so p * u == q * v; p is coprime to q and so
            // divides v, which makes m a multiple of b * p.
            lemma_divides_quotient(a, m);
            lemma_divides_quotient(b, m);
            let u = m / a;
            let v = m / b;
            assert(q * v == p * u) by (nonlinear_arith)
                requires
                    m == a * u,
                    m == b * v,
                    a == g * p,
                    b == g * q,
                    g > 0,
            ;
            lemma_divides_multiple(p, u);
            assert(p > 0) by (nonlinear_arith)
                requires
                    a == g * p,
                    a > 0,
                    g > 0,
                    p >= 0,
            ;
            lemma_coprime_divides_product(p, q, v);
            lemma_divides_quotient(p, v);
            let w = v / p;
            assert(m == l * w) by (nonlinear_arith)
                requires
                    m == b * v,
                    v == p * w,
                    l == b * p,
            ;
            lemma_divides_multiple(l, w);
        }
    }
}

/// Two numbers have one least common multiple only.
pub proof fn lemma_is_lcm_unique(l: nat, a: nat, b: nat)
    requires
        is_lcm(l, a, b),
    ensures
        l == lcm(a, b),
{
    lemma_lcm_is_lcm(a, b);
    assert(divides(l, lcm(a, b)));
    assert(divides(lcm(a, b), l));
    lemma_divides_antisymmetric(l, lcm(a, b));
}

/// The least common multiple does not depend on the order of its arguments.
pub proof fn lemma_lcm_symmetric(a: nat, b: nat)
    ensures
        lcm(a, b) == lcm(b, a),
{
    lemma_lcm_is_lcm(b, a);
    let l = lcm(b, a);
    assert(is_lcm(l, a, b)) by {
        assert forall|m: nat| divides(a, m) && divides(b, m) implies #[trigger] divides(l, m) by {}
    }
    lemma_is_lcm_unique(l, a, b);
}

/// The least common multiple of two positive numbers is positive, a multiple
/// of both, and no larger than their product.
pub proof fn lemma_lcm_positive(a: nat, b: nat)
    requires
        a > 0,
        b > 0,
    ensures
        lcm(a, b) >= 1,
        lcm(a, b) % a == 0,
        lcm(a, b) % b == 0,
        lcm(a, b) <= a * b,
{
    lemma_lcm_is_lcm(a, b);
    let l = lcm(a, b);
    lemma_divides_multiple(a, b);
    lemma_divides_multiple(b, a);
    assert(a * b == b * a) by (nonlinear_arith);
    assert(a * b > 0) by (nonlinear_arith)
        requires
            a > 0,
            b > 0,
    ;
    assert(divides(l, a * b));
    lemma_divisor_bound(l, a * b);
}

/// Calls [`gcd::Gcd::gcd`] on two `u64`, the binary algorithm of the `gcd`
/// crate. Trusted: the result is taken to be the greatest common divisor of
/// the arguments, `0` where both are `0`.
#[verifier::external_body]
fn gcd_u64(a: u64, b: u64) -> (g: u64)
    ensures
        is_gcd(g as nat, a as nat, b as nat),
{
    gcd::Gcd::gcd(a, b)
}

/// Calls [`num::integer::lcm`] on two `u128`. Trusted: the result is taken to
/// be the least common multiple of the arguments, `0` where one of them is
/// `0`. The call multiplies one argument by a divisor of the other, so it is
/// kept to arguments whose least common multiple fits in 128 bits.
#[verifier::external_body]
fn lcm_u128(a: u128, b: u128) -> (l: u128)
    requires
        lcm(a as nat, b as nat) <= u128::MAX,
    ensures
        is_lcm(l as nat, a as nat, b as nat),
{
    num::integer::lcm(a, b)
}

/// The magnitude of `n`.
pub fn magnitude(n: i64) -> (m: u64)
    ensures
        m == abs(n as int),
{
    if n >= 0 {
        n as u64
    } else {
        (-(n + 1)) as u64 + 1
    }
}

/// The greatest common divisor of `a` and `b`.
pub fn greatest_common_divisor(a: u64, b: u64) -> (g: u64)
    ensures
        g == gcd(a as nat, b as nat),
{
    let g: u64 = gcd_u64(a, b);
    proof {
        lemma_is_gcd_unique(g as nat, a as nat, b as nat);
    }
    g
}

/// The least common multiple of `a` and `b`, or `None` where it does not fit
/// in 64 bits.
pub fn least_common_multiple(a: u64, b: u64) -> (l: Option<u64>)
    ensures
        match l {
            Some(v) => v == lcm(a as nat, b as nat),
            None => lcm(a as nat, b as nat) > u64::MAX,
        },
{
    proof {
        if a > 0 && b > 0 {
            lemma_lcm_positive(a as nat, b as nat);
            assert(a * b <= u128::MAX) by (nonlinear_arith)
                requires
                    0 <= a <= u64::MAX,
                    0 <= b <= u64::MAX,
            ;
        }
    }
    let wide: u128 = lcm_u128(a as u128, b as u128);
    proof {
        lemma_is_lcm_unique(wide as nat, a as nat, b as nat);
    }
    if wide <= u64::MAX as u128 {
        Some(wide as u64)
    } else {
        None
    }
}

} // verus!
