//! Exact magnitudes: a numerator over a denominator, both held in `i128`.
//!
//! A pair `(n, d)` with `d > 0` stands for the rational `n / d`, kept in
//! lowest terms. A zero denominator stands for a value outside the
//! rationals, in the manner of IEEE-754: `(1, 0)` is positive infinity,
//! `(-1, 0)` negative infinity and `(0, 0)` is NaN. Products and quotients
//! are exact: they are NaN only where the exact result, in lowest terms, does
//! not fit in `i128`. Sums are formed over the least common denominator and
//! are NaN where one of its terms leaves the `i128` range.
use vstd::prelude::*;
use vstd::arithmetic::div_mod::*;
use vstd::math::abs;
use crate::number::{
    gcd, lemma_gcd_divides, lemma_coprime_symmetric, lemma_divided_by_gcd,
    lemma_coprime_factors, lemma_coprime_product, lemma_lowest_terms_unique,
};

verus! {

pub open spec fn sign(n: int) -> int {
    if n > 0 {
        1
    } else if n < 0 {
        -1
    } else {
        0
    }
}

pub open spec fn nan() -> (int, int) {
    (0, 0)
}

pub open spec fn is_nan(p: (int, int)) -> bool {
    p.0 == 0 && p.1 == 0
}

pub open spec fn is_finite(p: (int, int)) -> bool {
    p.1 > 0
}

/// A finite pair in lowest terms.
pub open spec fn is_lowest_terms(p: (int, int)) -> bool {
    p.1 > 0 && gcd(abs(p.0), p.1 as nat) == 1
}

/// The integers that a stored part or an exact intermediate may take:
/// `i128` without its most negative value, so that negation stays in range.
pub open spec fn in_range(x: int) -> bool {
    -i128::MAX <= x <= i128::MAX
}

/// Both parts of the pair fit in storage.
pub open spec fn fits(p: (int, int)) -> bool {
    in_range(p.0) && p.1 <= i128::MAX
}

/// The pairs that a `Magnitude` can hold.
pub open spec fn is_canonical(p: (int, int)) -> bool {
    &&& 0 <= p.1
    &&& fits(p)
    &&& p.1 == 0 ==> -1 <= p.0 <= 1
    &&& p.1 > 0 ==> is_lowest_terms(p)
}

/// The finite pair `p` (with `p.1 > 0`) divided by the gcd of its parts.
pub open spec fn lowest_terms(p: (int, int)) -> (int, int) {
    let g = gcd(abs(p.0), p.1 as nat) as int;
    (sign(p.0) * (abs(p.0) as int / g), p.1 / g)
}

/// What is stored for the exact pair `p` (whose denominator is not
/// negative): the pair in lowest terms, a sign over zero for the
/// infinities and NaN, and NaN where the pair in lowest terms does not fit.
pub open spec fn represent(p: (int, int)) -> (int, int) {
    if p.1 <= 0 {
        (sign(p.0), 0)
    } else if fits(lowest_terms(p)) {
        lowest_terms(p)
    } else {
        nan()
    }
}

/// Two pairs stand for the same number. NaN equals nothing, itself included.
pub open spec fn same_value(p: (int, int), q: (int, int)) -> bool {
    if p.1 > 0 && q.1 > 0 {
        p.0 * q.1 == q.0 * p.1
    } else if p.1 == 0 && q.1 == 0 {
        p.0 != 0 && sign(p.0) == sign(q.0)
    } else {
        false
    }
}

/// A canonical finite pair is stored as it is.
pub proof fn lemma_represent_reduced(p: (int, int))
    requires
        is_canonical(p),
        p.1 > 0,
    ensures
        represent(p) == p,
{
    lemma_lowest_terms_value(p, p);
}

/// One is prime to every number.
pub proof fn lemma_gcd_one(d: nat)
    ensures
        gcd(1, d) == 1,
        gcd(d, 1) == 1,
{
    assert(d % 1 == 0);
    assert(gcd(1, 0) == 1);
    assert(gcd(d, 1) == gcd(1, d % 1));
    if d > 1 {
        lemma_small_mod(1, d);
        assert(1nat % d == 1);
        assert(gcd(1, d) == gcd(d, 1nat % d));
    }
}

/// `lowest_terms(p)` stands for the same number as `p`, is in lowest terms
/// and has parts no larger than those of `p`.
pub proof fn lemma_lowest_terms(p: (int, int))
    requires
        p.1 > 0,
    ensures
        is_lowest_terms(lowest_terms(p)),
        same_value(lowest_terms(p), p),
        abs(lowest_terms(p).0) <= abs(p.0),
        lowest_terms(p).1 <= p.1,
        sign(lowest_terms(p).0) == sign(p.0),
{
    let a = abs(p.0);
    let g = gcd(a, p.1 as nat) as int;
    lemma_gcd_divides(a, p.1 as nat);
    lemma_divided_by_gcd(a, p.1 as nat);
    lemma_fundamental_div_mod(a as int, g);
    lemma_fundamental_div_mod(p.1, g);
    let n = a as int / g;
    let d = p.1 / g;
    assert(d > 0 && d <= p.1) by (nonlinear_arith)
        requires
            p.1 == g * d,
            p.1 > 0,
            g > 0,
    ;
    assert(n >= 0 && n <= a) by (nonlinear_arith)
        requires
            a == g * n,
            g > 0,
            a >= 0,
    ;
    let s = sign(p.0);
    if p.0 > 0 {
        assert(a == p.0);
        assert(s * n == n);
        assert(n > 0) by (nonlinear_arith)
            requires
                a == g * n,
                a > 0,
                n >= 0,
        ;
    } else if p.0 < 0 {
        assert(a == -p.0);
        assert(s * n == -n);
        assert(n > 0) by (nonlinear_arith)
            requires
                a == g * n,
                a > 0,
                n >= 0,
        ;
    } else {
        assert(n == 0);
        assert(s * n == 0);
    }
    assert(abs(s * n) == n);
    assert(p.0 == s * a);
    assert((s * n) * p.1 == p.0 * d) by (nonlinear_arith)
        requires
            p.0 == s * a,
            a == g * n,
            p.1 == g * d,
    ;
}

/// Among finite pairs, standing for the same number is transitive.
pub proof fn lemma_same_transitive(p: (int, int), q: (int, int), s: (int, int))
    requires
        is_finite(p),
        is_finite(q),
        is_finite(s),
        same_value(p, q),
        same_value(q, s),
    ensures
        same_value(p, s),
{
    assert(p.0 * s.1 == s.0 * p.1) by (nonlinear_arith)
        requires
            p.0 * q.1 == q.0 * p.1,
            q.0 * s.1 == s.0 * q.1,
            q.1 > 0,
    ;
}

/// Every finite pair standing for the same number as a pair `x` in lowest
/// terms has `x` as its lowest terms, and is stored as `x` if `x` fits, else
/// as NaN.
pub proof fn lemma_lowest_terms_value(e: (int, int), x: (int, int))
    requires
        e.1 > 0,
        is_lowest_terms(x),
        same_value(e, x),
    ensures
        lowest_terms(e) == x,
        represent(e) == (if fits(x) {
            x
        } else {
            nan()
        }),
{
    let r = lowest_terms(e);
    lemma_lowest_terms(e);
    assert(same_value(e, r)) by {
        assert(r.0 * e.1 == e.0 * r.1);
    }
    lemma_same_transitive(r, e, x);
    let ra = abs(r.0);
    let xa = abs(x.0);
    assert(ra * x.1 == xa * r.1 && sign(r.0) == sign(x.0)) by {
        if r.0 > 0 {
            assert(x.0 * r.1 > 0) by (nonlinear_arith)
                requires
                    r.0 * x.1 == x.0 * r.1,
                    r.0 > 0,
                    x.1 > 0,
            ;
            assert(x.0 > 0) by (nonlinear_arith)
                requires
                    x.0 * r.1 > 0,
                    r.1 > 0,
            ;
        } else if r.0 < 0 {
            assert(x.0 * r.1 < 0) by (nonlinear_arith)
                requires
                    r.0 * x.1 == x.0 * r.1,
                    r.0 < 0,
                    x.1 > 0,
            ;
            assert(x.0 < 0) by (nonlinear_arith)
                requires
                    x.0 * r.1 < 0,
                    r.1 > 0,
            ;
            assert(ra * x.1 == xa * r.1) by (nonlinear_arith)
                requires
                    r.0 * x.1 == x.0 * r.1,
                    ra == -r.0,
                    xa == -x.0,
            ;
        } else {
            assert(x.0 * r.1 == 0);
            assert(x.0 == 0) by (nonlinear_arith)
                requires
                    x.0 * r.1 == 0,
                    r.1 > 0,
            ;
        }
    }
    lemma_lowest_terms_unique(ra, r.1 as nat, xa, x.1 as nat);
    if r.0 >= 0 {
        assert(r.0 == x.0);
    } else {
        assert(r.0 == x.0);
    }
}

/// The stored pair is canonical, and unless it is NaN it stands for the same
/// number as the exact one.
pub proof fn lemma_represent(p: (int, int))
    requires
        p.1 >= 0,
    ensures
        is_canonical(represent(p)),
        is_nan(p) ==> is_nan(represent(p)),
        !is_nan(represent(p)) ==> same_value(represent(p), p),
        is_finite(p) && !is_nan(represent(p)) ==> is_finite(represent(p)),
{
    if p.1 > 0 {
        lemma_lowest_terms(p);
    }
}

/// `(a / b) * (c / d) = (a * c) / (b * d)`; an infinity times zero is NaN.
pub open spec fn exact_product(p: (int, int), q: (int, int)) -> (int, int) {
    (p.0 * q.0, p.1 * q.1)
}

/// `(a / b) / (c / d) = (a * d) / (b * c)`, with the sign carried by the
/// numerator; a nonzero number over zero is an infinity, zero over zero NaN.
pub open spec fn exact_quotient(p: (int, int), q: (int, int)) -> (int, int) {
    if q.0 < 0 {
        (-(p.0 * q.1), -(p.1 * q.0))
    } else {
        (p.0 * q.1, p.1 * q.0)
    }
}

/// `(a / b) + (c / d) = (a * d + c * b) / (b * d)`; two infinities of one
/// sign add to that infinity.
pub open spec fn exact_sum(p: (int, int), q: (int, int)) -> (int, int) {
    if p.1 == 0 && q.1 == 0 {
        if p.0 == q.0 {
            p
        } else {
            nan()
        }
    } else {
        (p.0 * q.1 + q.0 * p.1, p.1 * q.1)
    }
}

pub open spec fn negation(p: (int, int)) -> (int, int) {
    (-p.0, p.1)
}

/// The stored product: exact, NaN only where it does not fit.
pub open spec fn product(p: (int, int), q: (int, int)) -> (int, int) {
    represent(exact_product(p, q))
}

/// The stored quotient: exact, NaN only where it does not fit.
pub open spec fn quotient(p: (int, int), q: (int, int)) -> (int, int) {
    represent(exact_quotient(p, q))
}

/// The terms of a finite sum over the least common denominator
/// `(b / g) * d`, `g` the gcd of the denominators, all stay in range.
pub open spec fn sum_fits(p: (int, int), q: (int, int)) -> bool {
    let g = gcd(p.1 as nat, q.1 as nat) as int;
    &&& in_range(p.0 * (q.1 / g))
    &&& in_range(q.0 * (p.1 / g))
    &&& in_range(p.0 * (q.1 / g) + q.0 * (p.1 / g))
    &&& in_range((p.1 / g) * q.1)
}

/// The stored sum: exact where an operand is not finite or the terms over
/// the least common denominator stay in range, else NaN.
pub open spec fn sum(p: (int, int), q: (int, int)) -> (int, int) {
    if p.1 == 0 || q.1 == 0 || sum_fits(p, q) {
        represent(exact_sum(p, q))
    } else {
        nan()
    }
}

pub open spec fn difference(p: (int, int), q: (int, int)) -> (int, int) {
    sum(p, negation(q))
}

/// `10` to the power `k`.
pub open spec fn pow10(k: nat) -> int
    decreases k,
{
    if k == 0 {
        1
    } else {
        10 * pow10((k - 1) as nat)
    }
}

/// An exact magnitude; its view is the pair `(numerator, denominator)`.
#[derive(Clone, Copy, Debug)]
pub struct Magnitude {
    num: i128,
    den: i128,
}

impl View for Magnitude {
    type V = (int, int);

    closed spec fn view(&self) -> (int, int) {
        (self.num as int, self.den as int)
    }
}

fn gcd_u128(a: u128, b: u128) -> (g: u128)
    ensures
        g == gcd(a as nat, b as nat),
    decreases b,
{
    if b == 0 {
        a
    } else {
        gcd_u128(b, a % b)
    }
}

/// The product `a * b` where it is in range.
fn checked_product(a: i128, b: i128) -> (r: Option<i128>)
    ensures
        match r {
            Some(x) => in_range(a * b) && x == a * b,
            None => !in_range(a * b),
        },
{
    match a.checked_mul(b) {
        Some(x) => if x == i128::MIN {
            None
        } else {
            Some(x)
        },
        None => None,
    }
}

/// The sum `a + b` where it is in range.
fn checked_total(a: i128, b: i128) -> (r: Option<i128>)
    ensures
        match r {
            Some(x) => in_range(a + b) && x == a + b,
            None => !in_range(a + b),
        },
{
    match a.checked_add(b) {
        Some(x) => if x == i128::MIN {
            None
        } else {
            Some(x)
        },
        None => None,
    }
}

impl Magnitude {
    /// The magnitude whose view is `p`, for a pair in the stored range.
    pub closed spec fn from_pair(p: (int, int)) -> Magnitude {
        Magnitude { num: p.0 as i128, den: p.1 as i128 }
    }

    /// A magnitude is determined by its view.
    pub proof fn lemma_from_view(m: Magnitude)
        ensures
            Magnitude::from_pair(m@) == m,
    {
    }

    #[verifier::type_invariant]
    spec fn well_formed(self) -> bool {
        is_canonical(self@)
    }

    /// Stores the exact pair `n / d` as `represent` describes.
    fn from_exact(n: i128, d: i128) -> (r: Magnitude)
        requires
            d >= 0,
            n > i128::MIN,
        ensures
            r@ == represent((n as int, d as int)),
    {
        proof {
            lemma_represent((n as int, d as int));
        }
        if d == 0 {
            let num: i128 = if n > 0 {
                1
            } else if n < 0 {
                -1
            } else {
                0
            };
            return Magnitude { num, den: 0 };
        }
        let a: u128 = if n < 0 {
            (-n) as u128
        } else {
            n as u128
        };
        assert(a == abs(n as int));
        let g = gcd_u128(a, d as u128);
        proof {
            lemma_gcd_divides(a as nat, d as nat);
        }
        let qn = a / g;
        let qd = d as u128 / g;
        if qn <= i128::MAX as u128 && qd <= i128::MAX as u128 {
            let num: i128 = if n < 0 {
                -(qn as i128)
            } else {
                qn as i128
            };
            assert(num == sign(n as int) * (qn as int));
            Magnitude { num, den: qd as i128 }
        } else {
            Magnitude { num: 0, den: 0 }
        }
    }

    /// The integer `n`; `i128::MIN`, whose negation is out of range, is NaN.
    pub fn from_int(n: i128) -> (r: Magnitude)
        ensures
            r@ == represent((n as int, 1int)),
            n > i128::MIN ==> r@ == (n as int, 1int),
    {
        proof {
            let a = abs(n as int);
            let p = (n as int, 1int);
            assert(a % 1 == 0);
            assert(gcd(1, 0) == 1);
            assert(gcd(a, 1) == 1);
            assert(a as int / 1int == a);
            assert(sign(p.0) * a == p.0) by {
                if n > 0 {
                } else if n < 0 {
                }
            }
            assert(gcd(abs(p.0), p.1 as nat) == 1);
            if n > i128::MIN {
                assert(represent(p) == p);
            }
        }
        if n == i128::MIN {
            return Magnitude { num: 0, den: 0 };
        }
        Magnitude::from_exact(n, 1)
    }

    /// The fraction `n / d`. A zero denominator gives an infinity of the
    /// numerator's sign, or NaN for `0 / 0`; `i128::MIN` in either place
    /// gives NaN.
    pub fn fraction(n: i128, d: i128) -> (r: Magnitude)
        ensures
            n > i128::MIN && d > i128::MIN ==> r@ == represent(
                exact_quotient((n as int, 1int), (d as int, 1int)),
            ),
            n == i128::MIN || d == i128::MIN ==> is_nan(r@),
    {
        if n == i128::MIN || d == i128::MIN {
            Magnitude { num: 0, den: 0 }
        } else if d < 0 {
            Magnitude::from_exact(-n, -d)
        } else {
            Magnitude::from_exact(n, d)
        }
    }

    /// The decimal number `mantissa * 10^-places`, e.g. `decimal(202, 1)`
    /// is `20.2`.
    pub fn decimal(mantissa: i128, places: u32) -> (r: Magnitude)
        requires
            places <= 38,
        ensures
            mantissa > i128::MIN ==> r@ == represent((mantissa as int, pow10(places as nat))),
            mantissa == i128::MIN ==> is_nan(r@),
    {
        let mut scale: i128 = 1;
        let mut k: u32 = 0;
        while k < places
            invariant
                k <= places <= 38,
                scale == pow10(k as nat),
                1 <= scale <= 100_000_000_000_000_000_000_000_000_000_000_000_000,
            decreases places - k,
        {
            assert(pow10((k + 1) as nat) == 10 * pow10(k as nat));
            proof {
                lemma_pow10_bound(k as nat);
            }
            assert(scale <= 10_000_000_000_000_000_000_000_000_000_000_000_000);
            scale = scale * 10;
            k = k + 1;
        }
        if mantissa == i128::MIN {
            return Magnitude { num: 0, den: 0 };
        }
        Magnitude::from_exact(mantissa, scale)
    }

    pub fn is_nan(&self) -> (r: bool)
        ensures
            r == is_nan(self@),
    {
        self.num == 0 && self.den == 0
    }

    pub fn numerator(&self) -> (r: i128)
        ensures
            r == self@.0,
            is_canonical(self@),
    {
        proof {
            use_type_invariant(self);
        }
        self.num
    }

    pub fn denominator(&self) -> (r: i128)
        ensures
            r == self@.1,
            is_canonical(self@),
    {
        proof {
            use_type_invariant(self);
        }
        self.den
    }

    pub fn times(self, rhs: Magnitude) -> (r: Magnitude)
        ensures
            r@ == product(self@, rhs@),
    {
        proof {
            use_type_invariant(self);
            use_type_invariant(rhs);
        }
        if self.den > 0 && rhs.den > 0 {
            return mul_lowest(self.num, self.den, rhs.num, rhs.den);
        }
        proof {
            lemma_small_times(self.num as int, rhs.num as int);
            lemma_nonnegative_product(self.den as int, rhs.den as int);
        }
        match (checked_product(self.num, rhs.num), checked_product(self.den, rhs.den)) {
            (Some(n), Some(d)) => Magnitude::from_exact(n, d),
            _ => Magnitude { num: 0, den: 0 },
        }
    }

    pub fn divided_by(self, rhs: Magnitude) -> (r: Magnitude)
        ensures
            r@ == quotient(self@, rhs@),
    {
        proof {
            use_type_invariant(self);
            use_type_invariant(rhs);
        }
        if self.den > 0 && rhs.den > 0 && rhs.num != 0 {
            let rn: i128 = if rhs.num < 0 {
                -rhs.den
            } else {
                rhs.den
            };
            let rd: i128 = if rhs.num < 0 {
                -rhs.num
            } else {
                rhs.num
            };
            proof {
                assert(abs(rn as int) == rhs.den && rd == abs(rhs.num as int));
                lemma_coprime_symmetric(abs(rhs.num as int), rhs.den as nat);
                let e = exact_quotient(self@, rhs@);
                let f = exact_product(self@, (rn as int, rd as int));
                if rhs.num < 0 {
                    assert(e.0 == f.0 && e.1 == f.1) by (nonlinear_arith)
                        requires
                            e == (-(self.num * rhs.den), -(self.den * rhs.num)),
                            f == (self.num * rn, self.den * rd),
                            rn == -rhs.den,
                            rd == -rhs.num,
                    ;
                }
            }
            return mul_lowest(self.num, self.den, rn, rd);
        }
        if self.den > 0 && rhs.den > 0 {
            // a finite number over zero: an infinity of its sign, or NaN
            let s: i128 = if self.num > 0 {
                1
            } else if self.num < 0 {
                -1
            } else {
                0
            };
            proof {
                lemma_sign_times_positive(self.num as int, rhs.den as int);
            }
            return Magnitude::from_exact(s, 0);
        }
        proof {
            lemma_small_times(rhs.den as int, self.num as int);
            lemma_small_times(self.den as int, rhs.num as int);
            lemma_small_times(rhs.num as int, self.den as int);
            lemma_small_times(self.num as int, rhs.den as int);
        }
        match (checked_product(self.num, rhs.den), checked_product(self.den, rhs.num)) {
            (Some(n), Some(d)) => {
                if rhs.num < 0 {
                    assert(d <= 0) by (nonlinear_arith)
                        requires
                            d == self.den * rhs.num,
                            self.den >= 0,
                            rhs.num < 0,
                    ;
                    Magnitude::from_exact(-n, -d)
                } else {
                    assert(d >= 0) by (nonlinear_arith)
                        requires
                            d == self.den * rhs.num,
                            self.den >= 0,
                            rhs.num >= 0,
                    ;
                    Magnitude::from_exact(n, d)
                }
            },
            _ => Magnitude { num: 0, den: 0 },
        }
    }

    pub fn plus(self, rhs: Magnitude) -> (r: Magnitude)
        ensures
            r@ == sum(self@, rhs@),
    {
        proof {
            use_type_invariant(self);
            use_type_invariant(rhs);
        }
        if self.den == 0 && rhs.den == 0 {
            if self.num == rhs.num {
                return self;
            } else {
                return Magnitude { num: 0, den: 0 };
            }
        }
        if self.den == 0 || rhs.den == 0 {
            proof {
                lemma_small_times(self.num as int, rhs.den as int);
                lemma_small_times(rhs.den as int, self.num as int);
                lemma_small_times(rhs.num as int, self.den as int);
                lemma_small_times(self.den as int, rhs.num as int);
                lemma_nonnegative_product(self.den as int, rhs.den as int);
            }
            let x = checked_product(self.num, rhs.den);
            let y = checked_product(rhs.num, self.den);
            let d = checked_product(self.den, rhs.den);
            return match (x, y, d) {
                (Some(x), Some(y), Some(d)) => match checked_total(x, y) {
                    Some(n) => Magnitude::from_exact(n, d),
                    None => Magnitude { num: 0, den: 0 },
                },
                _ => Magnitude { num: 0, den: 0 },
            };
        }
        let g = gcd_u128(self.den as u128, rhs.den as u128);
        proof {
            lemma_gcd_divides(self.den as nat, rhs.den as nat);
        }
        let b1 = (self.den as u128 / g) as i128;
        let d1 = (rhs.den as u128 / g) as i128;
        let x = checked_product(self.num, d1);
        let y = checked_product(rhs.num, b1);
        let l = checked_product(b1, rhs.den);
        match (x, y, l) {
            (Some(x), Some(y), Some(l)) => match checked_total(x, y) {
                Some(n) => {
                    proof {
                        let gi = g as int;
                        lemma_fundamental_div_mod(self.den as int, gi);
                        lemma_fundamental_div_mod(rhs.den as int, gi);
                        assert(l > 0) by (nonlinear_arith)
                            requires
                                l == b1 * rhs.den,
                                self.den == gi * b1,
                                self.den > 0,
                                rhs.den > 0,
                                gi > 0,
                        ;
                        let e = exact_sum(self@, rhs@);
                        lemma_nonnegative_product(self.den as int, rhs.den as int);
                        assert(self.den * rhs.den > 0) by (nonlinear_arith)
                            requires
                                self.den > 0,
                                rhs.den > 0,
                        ;
                        assert(n * e.1 == e.0 * l) by (nonlinear_arith)
                            requires
                                n == self.num * d1 + rhs.num * b1,
                                l == b1 * rhs.den,
                                e == (self.num * rhs.den + rhs.num * self.den, self.den * rhs.den),
                                self.den == gi * b1,
                                rhs.den == gi * d1,
                        ;
                        lemma_represent_same((n as int, l as int), e);
                    }
                    Magnitude::from_exact(n, l)
                },
                None => Magnitude { num: 0, den: 0 },
            },
            _ => Magnitude { num: 0, den: 0 },
        }
    }

    pub fn negated(self) -> (r: Magnitude)
        ensures
            r@ == negation(self@),
    {
        proof {
            use_type_invariant(self);
        }
        Magnitude { num: -self.num, den: self.den }
    }

    pub fn minus(self, rhs: Magnitude) -> (r: Magnitude)
        ensures
            r@ == difference(self@, rhs@),
    {
        self.plus(rhs.negated())
    }
}

/// The product of two finite fractions in lowest terms: common factors are
/// cancelled across before multiplying, so the result is in lowest terms and
/// NaN only where it does not fit.
fn mul_lowest(a: i128, b: i128, c: i128, d: i128) -> (r: Magnitude)
    requires
        is_canonical((a as int, b as int)),
        is_canonical((c as int, d as int)),
        b > 0,
        d > 0,
    ensures
        r@ == represent(exact_product((a as int, b as int), (c as int, d as int))),
{
    let aa: u128 = if a < 0 {
        (-a) as u128
    } else {
        a as u128
    };
    let cc: u128 = if c < 0 {
        (-c) as u128
    } else {
        c as u128
    };
    assert(aa == abs(a as int) && cc == abs(c as int));
    let g1 = gcd_u128(aa, d as u128);
    let g2 = gcd_u128(cc, b as u128);
    proof {
        lemma_gcd_divides(aa as nat, d as nat);
        lemma_gcd_divides(cc as nat, b as nat);
        lemma_divided_by_gcd(aa as nat, d as nat);
        lemma_divided_by_gcd(cc as nat, b as nat);
    }
    let a1 = aa / g1;
    let d1 = d as u128 / g1;
    let c1 = cc / g2;
    let b1 = b as u128 / g2;
    let neg = (a < 0) != (c < 0);
    let ghost s: int = if neg {
        -1
    } else {
        1
    };
    let ghost x: (int, int) = (s * (a1 * c1), b1 * d1);
    proof {
        let (ai, bi, ci, di, g1i, g2i) = (aa as int, b as int, cc as int, d as int, g1 as int, g2 as int);
        lemma_fundamental_div_mod(ai, g1i);
        lemma_fundamental_div_mod(di, g1i);
        lemma_fundamental_div_mod(ci, g2i);
        lemma_fundamental_div_mod(bi, g2i);
        assert(d1 > 0 && b1 > 0) by (nonlinear_arith)
            requires
                di == g1i * d1,
                bi == g2i * b1,
                di > 0,
                bi > 0,
                g1i > 0,
                g2i > 0,
        ;
        assert(ai == a1 * g1i && bi == b1 * g2i && ci == c1 * g2i && di == d1 * g1i) by (nonlinear_arith)
            requires
                ai == g1i * a1,
                di == g1i * d1,
                ci == g2i * c1,
                bi == g2i * b1,
        ;
        lemma_coprime_factors(aa as nat, b as nat, a1 as nat, b1 as nat, g1 as nat, g2 as nat);
        lemma_coprime_factors(cc as nat, d as nat, c1 as nat, d1 as nat, g2 as nat, g1 as nat);
        lemma_coprime_product(a1 as nat, b1 as nat, d1 as nat);
        lemma_coprime_product(c1 as nat, b1 as nat, d1 as nat);
        lemma_coprime_product((b1 * d1) as nat, a1 as nat, c1 as nat);
        assert(b1 * d1 > 0) by (nonlinear_arith)
            requires
                b1 > 0,
                d1 > 0,
        ;
        assert(a1 * c1 >= 0) by (nonlinear_arith);
        if neg {
            assert(x.0 == -(a1 * c1)) by (nonlinear_arith)
                requires
                    s == -1,
                    x.0 == s * (a1 * c1),
            ;
        } else {
            assert(x.0 == a1 * c1) by (nonlinear_arith)
                requires
                    s == 1,
                    x.0 == s * (a1 * c1),
            ;
        }
        assert(abs(x.0) == a1 * c1);
        lemma_signed_product(a as int, c as int, ai, ci, s);
        let e = exact_product((a as int, b as int), (c as int, d as int));
        let pp = a1 * c1;
        let qq = b1 * d1;
        let gg = g1i * g2i;
        assert(ai * ci == pp * gg) by (nonlinear_arith)
            requires
                ai == g1i * a1,
                ci == g2i * c1,
                pp == a1 * c1,
                gg == g1i * g2i,
        ;
        assert(bi * di == qq * gg) by (nonlinear_arith)
            requires
                bi == g2i * b1,
                di == g1i * d1,
                qq == b1 * d1,
                gg == g1i * g2i,
        ;
        assert(e.0 == s * (pp * gg));
        assert(e.1 == qq * gg);
        assert(x == (s * pp, qq));
        assert((s * (pp * gg)) * qq == (s * pp) * (qq * gg)) by (nonlinear_arith);
        assert(e.0 * x.1 == x.0 * e.1);
        assert(e.1 > 0) by (nonlinear_arith)
            requires
                e.1 == bi * di,
                bi > 0,
                di > 0,
        ;
        lemma_lowest_terms_value(e, x);
    }
    match (a1.checked_mul(c1), b1.checked_mul(d1)) {
        (Some(n), Some(m)) => {
            if n <= i128::MAX as u128 && m <= i128::MAX as u128 {
                let num: i128 = if neg {
                    -(n as i128)
                } else {
                    n as i128
                };
                Magnitude { num, den: m as i128 }
            } else {
                Magnitude { num: 0, den: 0 }
            }
        },
        _ => Magnitude { num: 0, den: 0 },
    }
}

proof fn lemma_signed_product(a: int, c: int, aa: int, cc: int, s: int)
    requires
        aa == abs(a),
        cc == abs(c),
        s == (if (a < 0) != (c < 0) {
            -1int
        } else {
            1int
        }),
    ensures
        a * c == s * (aa * cc),
{
    if a < 0 && c < 0 {
        assert(a * c == s * (aa * cc)) by (nonlinear_arith)
            requires
                aa == -a,
                cc == -c,
                s == 1,
        ;
    } else if a < 0 {
        assert(a * c == s * (aa * cc)) by (nonlinear_arith)
            requires
                aa == -a,
                cc == c,
                s == -1,
        ;
    } else if c < 0 {
        assert(a * c == s * (aa * cc)) by (nonlinear_arith)
            requires
                aa == a,
                cc == -c,
                s == -1,
        ;
    } else {
        assert(a * c == s * (aa * cc)) by (nonlinear_arith)
            requires
                aa == a,
                cc == c,
                s == 1,
        ;
    }
}

/// A factor between -1 and 1 keeps a product in range.
proof fn lemma_small_times(a: int, x: int)
    requires
        -1 <= a <= 1 || -1 <= x <= 1,
        in_range(a),
        in_range(x),
    ensures
        in_range(a * x),
{
    assert(in_range(a * x)) by (nonlinear_arith)
        requires
            -1 <= a <= 1 || -1 <= x <= 1,
            -0x7fff_ffff_ffff_ffff_ffff_ffff_ffff_ffff <= a <= 0x7fff_ffff_ffff_ffff_ffff_ffff_ffff_ffff,
            -0x7fff_ffff_ffff_ffff_ffff_ffff_ffff_ffff <= x <= 0x7fff_ffff_ffff_ffff_ffff_ffff_ffff_ffff,
    ;
}

proof fn lemma_sign_times_positive(a: int, d: int)
    requires
        d > 0,
    ensures
        sign(a * d) == sign(a),
{
    if a > 0 {
        assert(a * d > 0) by (nonlinear_arith)
            requires
                a > 0,
                d > 0,
        ;
    } else if a < 0 {
        assert(a * d < 0) by (nonlinear_arith)
            requires
                a < 0,
                d > 0,
        ;
    } else {
        assert(a * d == 0);
    }
}

/// Finite pairs standing for the same number are stored alike.
pub proof fn lemma_represent_same(e1: (int, int), e2: (int, int))
    requires
        e1.1 > 0,
        e2.1 > 0,
        same_value(e1, e2),
    ensures
        represent(e1) == represent(e2),
{
    let x = lowest_terms(e2);
    lemma_lowest_terms(e2);
    lemma_same_transitive(e1, e2, x);
    lemma_lowest_terms_value(e1, x);
    lemma_lowest_terms_value(e2, x);
}

proof fn lemma_pow10_bound(k: nat)
    requires
        k <= 38,
    ensures
        1 <= pow10(k) <= 100_000_000_000_000_000_000_000_000_000_000_000_000,
        k < 38 ==> pow10(k) <= 10_000_000_000_000_000_000_000_000_000_000_000_000,
{
    reveal_with_fuel(pow10, 39);
}

proof fn lemma_nonnegative_product(a: int, b: int)
    requires
        a >= 0,
        b >= 0,
    ensures
        a * b >= 0,
{
    assert(a * b >= 0) by (nonlinear_arith)
        requires
            a >= 0,
            b >= 0,
    ;
}

impl PartialEq for Magnitude {
    /// Equality of the numbers stood for; NaN is unequal to everything.
    fn eq(&self, other: &Magnitude) -> (r: bool)
        ensures
            r == same_value(self@, other@),
    {
        proof {
            use_type_invariant(self);
            use_type_invariant(other);
            if self.den > 0 && other.den > 0 {
                lemma_same_value_lowest_terms(self@, other@);
            }
        }
        if self.den > 0 && other.den > 0 {
            self.num == other.num && self.den == other.den
        } else if self.den == 0 && other.den == 0 {
            self.num != 0 && self.num == other.num
        } else {
            false
        }
    }
}

/// Pairs in lowest terms stand for the same number exactly when they are equal.
pub proof fn lemma_same_value_lowest_terms(p: (int, int), q: (int, int))
    requires
        is_lowest_terms(p),
        is_lowest_terms(q),
    ensures
        same_value(p, q) <==> p == q,
{
    if same_value(p, q) {
        lemma_lowest_terms_value(p, q);
        lemma_lowest_terms_value(p, p);
    }
}

impl vstd::std_specs::cmp::PartialEqSpecImpl for Magnitude {
    open spec fn obeys_eq_spec() -> bool {
        true
    }

    open spec fn eq_spec(&self, other: &Magnitude) -> bool {
        same_value(self@, other@)
    }
}

} // verus!
