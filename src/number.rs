//! Greatest common divisors and coprimality, the number theory that keeps
//! fractions in lowest terms.
use vstd::prelude::*;
use vstd::arithmetic::div_mod::*;

verus! {

/// Greatest common divisor, by Euclid's algorithm.
pub open spec fn gcd(a: nat, b: nat) -> nat
    decreases b,
{
    if b == 0 {
        a
    } else {
        gcd(b, a % b)
    }
}

/// The gcd of two numbers, not both zero, is positive and divides both.
pub proof fn lemma_gcd_divides(a: nat, b: nat)
    requires
        a > 0 || b > 0,
    ensures
        gcd(a, b) > 0,
        a % gcd(a, b) == 0,
        b % gcd(a, b) == 0,
    decreases b,
{
    if b == 0 {
        lemma_mod_self_0(a as int);
    } else {
        let r = a % b;
        lemma_gcd_divides(b, r);
        let g = gcd(b, r);
        lemma_fundamental_div_mod(a as int, b as int);
        lemma_fundamental_div_mod(b as int, g as int);
        lemma_fundamental_div_mod(r as int, g as int);
        let k1 = b as int / g as int;
        let k2 = r as int / g as int;
        let q = a as int / b as int;
        assert(a == g * (k1 * q + k2)) by (nonlinear_arith)
            requires
                a == b * q + r,
                b == g * k1,
                r == g * k2,
        ;
        lemma_mod_multiples_basic(k1 * q + k2, g as int);
        assert((g * (k1 * q + k2)) % (g as int) == 0) by (nonlinear_arith)
            requires
                ((k1 * q + k2) * g) % (g as int) == 0,
        ;
    }
}

/// Bezout's identity: the gcd is an integer combination of the two numbers.
pub proof fn lemma_bezout(a: nat, b: nat) -> (xy: (int, int))
    ensures
        a * xy.0 + b * xy.1 == gcd(a, b),
    decreases b,
{
    if b == 0 {
        (1, 0)
    } else {
        let r = a % b;
        let q = a as int / b as int;
        let (x, y) = lemma_bezout(b, r);
        lemma_fundamental_div_mod(a as int, b as int);
        let g = gcd(a, b) as int;
        assert(a * y + b * (x - q * y) == g) by (nonlinear_arith)
            requires
                b * x + r * y == g,
                a == b * q + r,
        ;
        (y, x - q * y)
    }
}

/// Two numbers with an integer combination equal to one are coprime.
pub proof fn lemma_coprime(a: nat, b: nat, x: int, y: int)
    requires
        a * x + b * y == 1,
    ensures
        gcd(a, b) == 1,
{
    if a == 0 && b == 0 {
        assert(a * x + b * y == 0) by (nonlinear_arith)
            requires
                a == 0,
                b == 0,
        ;
    }
    lemma_gcd_divides(a, b);
    let g = gcd(a, b) as int;
    lemma_fundamental_div_mod(a as int, g);
    lemma_fundamental_div_mod(b as int, g);
    let s = a as int / g;
    let t = b as int / g;
    assert(g * (s * x + t * y) == 1) by (nonlinear_arith)
        requires
            a == g * s,
            b == g * t,
            a * x + b * y == 1,
    ;
    assert(g == 1) by (nonlinear_arith)
        requires
            g * (s * x + t * y) == 1,
            g > 0,
    ;
}

/// Coprimality does not depend on the order of the two numbers.
pub proof fn lemma_coprime_symmetric(a: nat, b: nat)
    requires
        gcd(a, b) == 1,
    ensures
        gcd(b, a) == 1,
{
    let (x, y) = lemma_bezout(a, b);
    lemma_coprime(b, a, y, x);
}

/// Dividing two numbers, not both zero, by their gcd leaves them coprime.
pub proof fn lemma_divided_by_gcd(a: nat, b: nat)
    requires
        a > 0 || b > 0,
    ensures
        gcd(a / gcd(a, b), b / gcd(a, b)) == 1,
{
    lemma_gcd_divides(a, b);
    let g = gcd(a, b) as int;
    let (x, y) = lemma_bezout(a, b);
    lemma_fundamental_div_mod(a as int, g);
    lemma_fundamental_div_mod(b as int, g);
    let s = a as int / g;
    let t = b as int / g;
    assert(s * x + t * y == 1) by (nonlinear_arith)
        requires
            a == g * s,
            b == g * t,
            a * x + b * y == g,
            g > 0,
    ;
    lemma_coprime(s as nat, t as nat, x, y);
}

/// Factors of coprime numbers are coprime.
pub proof fn lemma_coprime_factors(a: nat, b: nat, s: nat, t: nat, m: nat, n: nat)
    requires
        gcd(a, b) == 1,
        a == s * m,
        b == t * n,
    ensures
        gcd(s, t) == 1,
{
    let (x, y) = lemma_bezout(a, b);
    assert(s * (m * x) + t * (n * y) == 1) by (nonlinear_arith)
        requires
            a * x + b * y == 1,
            a == s * m,
            b == t * n,
    ;
    lemma_coprime(s, t, m * x, n * y);
}

/// A number prime to two numbers is prime to their product.
pub proof fn lemma_coprime_product(x: nat, y: nat, z: nat)
    requires
        gcd(x, y) == 1,
        gcd(x, z) == 1,
    ensures
        gcd(x, y * z) == 1,
        gcd(y * z, x) == 1,
{
    let (u, v) = lemma_bezout(x, y);
    let (s, t) = lemma_bezout(x, z);
    let k = u * x * s + u * z * t + y * v * s;
    let aa = x * u;
    let bb = y * v;
    let cc = x * s;
    let dd = z * t;
    assert((aa + bb) * (cc + dd) == aa * cc + aa * dd + bb * cc + bb * dd) by (nonlinear_arith);
    assert(x * (u * x * s) == aa * cc) by (nonlinear_arith)
        requires
            aa == x * u, cc == x * s,
    ;
    assert(x * (u * z * t) == aa * dd) by (nonlinear_arith)
        requires
            aa == x * u, dd == z * t,
    ;
    assert(x * (y * v * s) == bb * cc) by (nonlinear_arith)
        requires
            bb == y * v, cc == x * s,
    ;
    assert((y * z) * (v * t) == bb * dd) by (nonlinear_arith)
        requires
            bb == y * v, dd == z * t,
    ;
    assert(x * k == x * (u * x * s) + x * (u * z * t) + x * (y * v * s)) by (nonlinear_arith)
        requires
            k == u * x * s + u * z * t + y * v * s,
    ;
    assert(x * k + (y * z) * (v * t) == 1) by {
        assert(aa + bb == 1);
        assert(cc + dd == 1);
        assert((aa + bb) * (cc + dd) == 1) by (nonlinear_arith)
            requires
                aa + bb == 1,
                cc + dd == 1,
        ;
    }
    lemma_coprime(x, (y * z) as nat, k, v * t);
    lemma_coprime((y * z) as nat, x, v * t, k);
}

/// Two fractions in lowest terms with positive denominators and the same
/// value are the same fraction.
pub proof fn lemma_lowest_terms_unique(a: nat, b: nat, c: nat, d: nat)
    requires
        b > 0,
        d > 0,
        gcd(a, b) == 1,
        gcd(c, d) == 1,
        a * d == c * b,
    ensures
        a == c,
        b == d,
{
    let (x, y) = lemma_bezout(a, b);
    let (u, v) = lemma_bezout(c, d);
    let k1 = c * x + d * y;
    let k2 = a * u + b * v;
    assert(d == b * k1) by (nonlinear_arith)
        requires
            a * x + b * y == 1,
            a * d == c * b,
            k1 == c * x + d * y,
    ;
    assert(b == d * k2) by (nonlinear_arith)
        requires
            c * u + d * v == 1,
            a * d == c * b,
            k2 == a * u + b * v,
    ;
    assert(k1 == 1) by (nonlinear_arith)
        requires
            d == b * k1,
            b == d * k2,
            b > 0,
            d > 0,
    ;
    assert(a == c) by (nonlinear_arith)
        requires
            a * d == c * b,
            b == d,
            d > 0,
    ;
}

/// The gcd does not depend on the order of the two numbers.
pub proof fn lemma_gcd_symmetric(a: nat, b: nat)
    ensures
        gcd(a, b) == gcd(b, a),
{
    if a > 0 || b > 0 {
        lemma_gcd_divides(a, b);
        lemma_gcd_divides(b, a);
        let g1 = gcd(a, b) as int;
        let g2 = gcd(b, a) as int;
        let (x, y) = lemma_bezout(a, b);
        let (u, v) = lemma_bezout(b, a);
        lemma_fundamental_div_mod(a as int, g1);
        lemma_fundamental_div_mod(b as int, g1);
        lemma_fundamental_div_mod(a as int, g2);
        lemma_fundamental_div_mod(b as int, g2);
        let (a1, b1) = (a as int / g1, b as int / g1);
        let (a2, b2) = (a as int / g2, b as int / g2);
        // each gcd is a multiple of the other
        assert(g2 == g1 * (b1 * u + a1 * v)) by (nonlinear_arith)
            requires
                b * u + a * v == g2,
                a == g1 * a1,
                b == g1 * b1,
        ;
        assert(g1 == g2 * (a2 * x + b2 * y)) by (nonlinear_arith)
            requires
                a * x + b * y == g1,
                a == g2 * a2,
                b == g2 * b2,
        ;
        assert(g1 == g2) by (nonlinear_arith)
            requires
                g2 == g1 * (b1 * u + a1 * v),
                g1 == g2 * (a2 * x + b2 * y),
                g1 > 0,
                g2 > 0,
        ;
    } else {
        assert(gcd(0, 0) == 0);
    }
}

} // verus!
