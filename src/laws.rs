//! Laws of the quantity system, proved over the exact arithmetic of
//! `magnitude`. A law about several steps holds exactly unless an
//! intermediate result, in lowest terms, does not fit in `i128`; that
//! intermediate is then NaN.
use vstd::prelude::*;
use crate::value::{Unit, Value, converted};
use crate::length::LengthUnit;
use crate::area::AreaUnit;
use crate::volume::VolumeUnit;
use crate::time::TimeUnit;
use crate::velocity::VelocityUnit;
use crate::magnitude::{
    is_canonical, is_finite, is_nan, same_value, represent, exact_product, exact_quotient,
    product, quotient, difference, exact_sum, lemma_gcd_one, lemma_represent, lemma_represent_reduced,
    lemma_lowest_terms_value, lemma_same_transitive,
};
use crate::number::{gcd, lemma_gcd_divides, lemma_gcd_symmetric};
use crate::magnitude::{negation, sum_fits, sign};
use vstd::arithmetic::div_mod::lemma_fundamental_div_mod;

verus! {

/// Equal numbers times the same finite number give equal products.
proof fn lemma_product_congruent(p: (int, int), p2: (int, int), q: (int, int))
    requires
        is_finite(p),
        is_finite(p2),
        is_finite(q),
        same_value(p, p2),
    ensures
        is_finite(exact_product(p, q)),
        is_finite(exact_product(p2, q)),
        same_value(exact_product(p, q), exact_product(p2, q)),
{
    assert(p.1 * q.1 > 0) by (nonlinear_arith)
        requires
            p.1 > 0,
            q.1 > 0,
    ;
    assert(p2.1 * q.1 > 0) by (nonlinear_arith)
        requires
            p2.1 > 0,
            q.1 > 0,
    ;
    assert((p.0 * q.0) * (p2.1 * q.1) == (p2.0 * q.0) * (p.1 * q.1)) by (nonlinear_arith)
        requires
            p.0 * p2.1 == p2.0 * p.1,
    ;
}

/// A finite number over a finite nonzero one has a positive denominator.
proof fn lemma_quotient_finite(p: (int, int), q: (int, int))
    requires
        is_finite(p),
        is_finite(q),
        q.0 != 0,
    ensures
        is_finite(exact_quotient(p, q)),
{
    if q.0 < 0 {
        assert(-(p.1 * q.0) > 0) by (nonlinear_arith)
            requires
                p.1 > 0,
                q.0 < 0,
        ;
    } else {
        assert(p.1 * q.0 > 0) by (nonlinear_arith)
            requires
                p.1 > 0,
                q.0 > 0,
        ;
    }
}

/// Equal numbers over the same nonzero divisor give equal quotients.
proof fn lemma_quotient_congruent(p: (int, int), p2: (int, int), q: (int, int))
    requires
        is_finite(p),
        is_finite(p2),
        is_finite(q),
        q.0 != 0,
        same_value(p, p2),
    ensures
        is_finite(exact_quotient(p, q)),
        is_finite(exact_quotient(p2, q)),
        same_value(exact_quotient(p, q), exact_quotient(p2, q)),
{
    lemma_quotient_finite(p, q);
    lemma_quotient_finite(p2, q);
    assert((p.0 * q.1) * (p2.1 * q.0) == (p2.0 * q.1) * (p.1 * q.0)) by (nonlinear_arith)
        requires
            p.0 * p2.1 == p2.0 * p.1,
    ;
    assert((-(p.0 * q.1)) * (-(p2.1 * q.0)) == (-(p2.0 * q.1)) * (-(p.1 * q.0))) by (nonlinear_arith)
        requires
            p.0 * p2.1 == p2.0 * p.1,
    ;
}

/// `(p * q) / q` is `p` for a nonzero `q`.
proof fn lemma_product_then_quotient(p: (int, int), q: (int, int))
    requires
        is_finite(p),
        is_finite(q),
        q.0 != 0,
    ensures
        is_finite(exact_product(p, q)),
        is_finite(exact_quotient(exact_product(p, q), q)),
        same_value(exact_quotient(exact_product(p, q), q), p),
{
    let e = exact_product(p, q);
    assert(e.1 > 0) by (nonlinear_arith)
        requires
            e.1 == p.1 * q.1,
            p.1 > 0,
            q.1 > 0,
    ;
    lemma_quotient_finite(e, q);
    assert((p.0 * q.0 * q.1) * p.1 == p.0 * (p.1 * q.1 * q.0)) by (nonlinear_arith);
    assert((-(p.0 * q.0 * q.1)) * p.1 == p.0 * (-(p.1 * q.1 * q.0))) by (nonlinear_arith);
}

/// `(p / q) * q` is `p` for a nonzero `q`.
proof fn lemma_quotient_then_product(p: (int, int), q: (int, int))
    requires
        is_finite(p),
        is_finite(q),
        q.0 != 0,
    ensures
        is_finite(exact_quotient(p, q)),
        is_finite(exact_product(exact_quotient(p, q), q)),
        same_value(exact_product(exact_quotient(p, q), q), p),
{
    let e = exact_quotient(p, q);
    lemma_quotient_finite(p, q);
    assert(e.1 * q.1 > 0) by (nonlinear_arith)
        requires
            e.1 > 0,
            q.1 > 0,
    ;
    assert((p.0 * q.1 * q.0) * p.1 == p.0 * (p.1 * q.0 * q.1)) by (nonlinear_arith);
    assert((-(p.0 * q.1) * q.0) * p.1 == p.0 * (-(p.1 * q.0) * q.1)) by (nonlinear_arith);
}

/// Equal nonzero divisors give equal quotients.
proof fn lemma_quotient_congruent_right(p: (int, int), q: (int, int), q2: (int, int))
    requires
        is_finite(p),
        is_finite(q),
        is_finite(q2),
        q.0 != 0,
        same_value(q, q2),
    ensures
        q2.0 != 0,
        is_finite(exact_quotient(p, q)),
        is_finite(exact_quotient(p, q2)),
        same_value(exact_quotient(p, q), exact_quotient(p, q2)),
{
    assert(q2.0 != 0) by (nonlinear_arith)
        requires
            q.0 * q2.1 == q2.0 * q.1,
            q.0 != 0,
            q2.1 > 0,
    ;
    lemma_quotient_finite(p, q);
    lemma_quotient_finite(p, q2);
    let e = exact_quotient(p, q);
    let e2 = exact_quotient(p, q2);
    assert(e.0 * e2.1 == e2.0 * e.1) by (nonlinear_arith)
        requires
            q.0 * q2.1 == q2.0 * q.1,
            e == (if q.0 < 0 { (-(p.0 * q.1), -(p.1 * q.0)) } else { (p.0 * q.1, p.1 * q.0) }),
            e2 == (if q2.0 < 0 { (-(p.0 * q2.1), -(p.1 * q2.0)) } else { (p.0 * q2.1, p.1 * q2.0) }),
    ;
}

/// `p / (p / q)` is `q` for nonzero `p` and `q`.
proof fn lemma_quotient_of_quotient(p: (int, int), q: (int, int))
    requires
        is_finite(p),
        is_finite(q),
        p.0 != 0,
        q.0 != 0,
    ensures
        is_finite(exact_quotient(p, q)),
        exact_quotient(p, q).0 != 0,
        is_finite(exact_quotient(p, exact_quotient(p, q))),
        same_value(exact_quotient(p, exact_quotient(p, q)), q),
{
    lemma_quotient_finite(p, q);
    let e = exact_quotient(p, q);
    assert(e.0 != 0) by (nonlinear_arith)
        requires
            e.0 == p.0 * q.1 || e.0 == -(p.0 * q.1),
            p.0 != 0,
            q.1 > 0,
    ;
    lemma_quotient_finite(p, e);
    let r = exact_quotient(p, e);
    assert(r.0 * q.1 == q.0 * r.1) by (nonlinear_arith)
        requires
            e == (if q.0 < 0 { (-(p.0 * q.1), -(p.1 * q.0)) } else { (p.0 * q.1, p.1 * q.0) }),
            r == (if e.0 < 0 { (-(p.0 * e.1), -(p.1 * e.0)) } else { (p.0 * e.1, p.1 * e.0) }),
    ;
}

/// NaN in, NaN out, for products and quotients.
proof fn lemma_nan_propagates(q: (int, int))
    ensures
        is_nan(product((0, 0), q)),
        is_nan(quotient((0, 0), q)),
        is_nan(product(q, (0, 0))),
{
}

/// Converting a quantity to another unit of its dimension and back gives its
/// magnitude back exactly, unless the magnitude in the other unit does not
/// fit (it is then NaN).
pub proof fn law_round_trip<T: Unit>(q: Value<T>, other: T)
    requires
        is_canonical(q.spec_value()@),
    ensures
        ({
            let m = q.spec_value()@;
            let there = converted(m, q.spec_unit(), other);
            is_nan(there) || converted(there, other, q.spec_unit()) == m
        }),
{
    let m = q.spec_value()@;
    let u0 = q.spec_unit();
    T::lemma_unit_table(u0);
    T::lemma_unit_table(other);
    if other != u0 && !is_nan(m) {
        let r0 = u0.spec_ratio();
        let r1 = other.spec_ratio();
        let b = product(m, r0);
        let m1 = quotient(b, r1);
        let b2 = product(m1, r1);
        let back = quotient(b2, r0);
        lemma_nan_propagates(r0);
        lemma_nan_propagates(r1);
        if is_finite(m) && !is_nan(m1) {
            lemma_product_congruent(m, m, r0);
            lemma_represent(exact_product(m, r0));
            lemma_quotient_finite(b, r1);
            lemma_represent(exact_quotient(b, r1));
            // m1 * r1 stands for b, which is in lowest terms
            lemma_quotient_then_product(b, r1);
            lemma_product_congruent(m1, exact_quotient(b, r1), r1);
            lemma_same_transitive(
                exact_product(m1, r1),
                exact_product(exact_quotient(b, r1), r1),
                b,
            );
            lemma_lowest_terms_value(exact_product(m1, r1), b);
            // b / r0 stands for m, which is in lowest terms
            lemma_quotient_congruent(b, exact_product(m, r0), r0);
            lemma_product_then_quotient(m, r0);
            lemma_same_transitive(
                exact_quotient(b, r0),
                exact_quotient(exact_product(m, r0), r0),
                m,
            );
            lemma_lowest_terms_value(exact_quotient(b, r0), m);
        } else if !is_finite(m) {
            assert(m.1 == 0);
            assert(exact_product(m, r0) == (m.0 * r0.0, 0int));
            if m.0 > 0 {
                assert(m.0 == 1);
                assert(m.0 * r0.0 == r0.0 && m.0 * r1.1 == r1.1 && m.0 * r1.0 == r1.0 && m.0 * r0.1
                    == r0.1) by (nonlinear_arith)
                    requires
                        m.0 == 1,
                ;
            } else {
                assert(m.0 == -1);
                assert(m.0 * r0.0 == -r0.0 && m.0 * r1.1 == -r1.1 && m.0 * r1.0 == -r1.0 && m.0
                    * r0.1 == -r0.1) by (nonlinear_arith)
                    requires
                        m.0 == -1,
                ;
            }
            assert(b == m);
            assert(exact_quotient(b, r1) == (m.0 * r1.1, 0int));
            assert(m1 == m);
            assert(exact_product(m1, r1) == (m.0 * r1.0, 0int));
            assert(b2 == m);
            assert(exact_quotient(b2, r0) == (m.0 * r0.1, 0int));
            assert(back == m);
        }
    } else if other != u0 {
        lemma_nan_propagates(u0.spec_ratio());
        lemma_nan_propagates(other.spec_ratio());
    }
}

/// Converting a quantity to its own unit leaves it as it is.
pub proof fn law_convert_to_own_unit<T: Unit>(q: Value<T>)
    ensures
        q.spec_converted(q.spec_unit()) == q.spec_value()@,
{
}

/// `(x * y) / y` through a base unit of ratio one gives `x` back, unless
/// `x * y` does not fit.
proof fn lemma_product_unit_quotient(x: (int, int), y: (int, int))
    requires
        is_canonical(x),
        is_canonical(y),
        is_finite(x),
        is_finite(y),
        y.0 != 0,
    ensures
        ({
            let a = product(x, y);
            is_nan(a) || quotient(product(a, (1int, 1int)), y) == x
        }),
{
    let a = product(x, y);
    if !is_nan(a) {
        lemma_product_congruent(x, x, y);
        lemma_represent(exact_product(x, y));
        assert(exact_product(a, (1int, 1int)) == a);
        lemma_represent_reduced(a);
        lemma_quotient_congruent(a, exact_product(x, y), y);
        lemma_product_then_quotient(x, y);
        lemma_same_transitive(exact_quotient(a, y), exact_quotient(exact_product(x, y), y), x);
        lemma_lowest_terms_value(exact_quotient(a, y), x);
    }
}

/// `(x / y) * y` through a base unit of ratio one gives `x` back, unless
/// `x / y` does not fit.
proof fn lemma_quotient_unit_product(x: (int, int), y: (int, int))
    requires
        is_canonical(x),
        is_canonical(y),
        is_finite(x),
        is_finite(y),
        y.0 != 0,
    ensures
        ({
            let v = quotient(x, y);
            is_nan(v) || product(product(v, (1int, 1int)), y) == x
        }),
{
    let v = quotient(x, y);
    if !is_nan(v) {
        lemma_quotient_finite(x, y);
        lemma_represent(exact_quotient(x, y));
        assert(exact_product(v, (1int, 1int)) == v);
        lemma_represent_reduced(v);
        lemma_product_congruent(v, exact_quotient(x, y), y);
        lemma_quotient_then_product(x, y);
        lemma_same_transitive(exact_product(v, y), exact_product(exact_quotient(x, y), y), x);
        lemma_lowest_terms_value(exact_product(v, y), x);
    }
}

/// `x / (x / y)` through a base unit of ratio one gives `y` back, unless
/// `x / y` does not fit.
proof fn lemma_quotient_unit_quotient(x: (int, int), y: (int, int))
    requires
        is_canonical(x),
        is_canonical(y),
        is_finite(x),
        is_finite(y),
        x.0 != 0,
        y.0 != 0,
    ensures
        ({
            let v = quotient(x, y);
            is_nan(v) || quotient(x, product(v, (1int, 1int))) == y
        }),
{
    let v = quotient(x, y);
    if !is_nan(v) {
        lemma_quotient_of_quotient(x, y);
        lemma_represent(exact_quotient(x, y));
        assert(exact_product(v, (1int, 1int)) == v);
        lemma_represent_reduced(v);
        assert(v.0 != 0) by (nonlinear_arith)
            requires
                v.0 * exact_quotient(x, y).1 == exact_quotient(x, y).0 * v.1,
                exact_quotient(x, y).0 != 0,
                v.1 > 0,
        ;
        lemma_quotient_congruent_right(x, v, exact_quotient(x, y));
        lemma_same_transitive(exact_quotient(x, v), exact_quotient(x, exact_quotient(x, y)), y);
        lemma_lowest_terms_value(exact_quotient(x, v), y);
    }
}

/// The base magnitude of a quantity is canonical.
proof fn lemma_base_canonical<T: Unit>(q: Value<T>)
    requires
        is_canonical(q.spec_value()@),
    ensures
        is_canonical(q.spec_base_value()),
{
    T::lemma_unit_table(q.spec_unit());
    lemma_nonnegative(q.spec_value()@.1, q.spec_unit().spec_ratio().1);
    lemma_represent(exact_product(q.spec_value()@, q.spec_unit().spec_ratio()));
}

proof fn lemma_nonnegative(a: int, b: int)
    requires
        a >= 0,
        b >= 0,
    ensures
        a * b >= 0,
{
    assert(a * b >= 0) by (nonlinear_arith)
        requires
            a >= 0,
            b >= 0,
    ;
}

/// A length times a length, divided by the second length, gives the first
/// length's base magnitude back (`l1.times_length(l2).over_length(l2)`),
/// unless the area does not fit. Stated for finite base magnitudes and a nonzero divisor.
pub proof fn law_area_over_length(l1: Value<LengthUnit>, l2: Value<LengthUnit>)
    requires
        is_canonical(l1.spec_value()@),
        is_canonical(l2.spec_value()@),
        is_finite(l1.spec_base_value()),
        is_finite(l2.spec_base_value()),
        l2.spec_base_value().0 != 0,
    ensures
        ({
            let mid = product(l1.spec_base_value(), l2.spec_base_value());
            is_nan(mid) || quotient(product(mid, AreaUnit::SquareMeter.spec_ratio()), l2.spec_base_value()) == l1.spec_base_value()
        }),
{
    lemma_base_canonical(l1);
    lemma_base_canonical(l2);
    lemma_product_unit_quotient(l1.spec_base_value(), l2.spec_base_value());
}

/// An area times a length, divided by the length, gives the area's base
/// magnitude back (`a.times_length(l).over_length(l)`), unless the volume
/// does not fit. Stated for finite base magnitudes and a nonzero divisor.
pub proof fn law_volume_over_length(a: Value<AreaUnit>, l: Value<LengthUnit>)
    requires
        is_canonical(a.spec_value()@),
        is_canonical(l.spec_value()@),
        is_finite(a.spec_base_value()),
        is_finite(l.spec_base_value()),
        l.spec_base_value().0 != 0,
    ensures
        ({
            let mid = product(a.spec_base_value(), l.spec_base_value());
            is_nan(mid) || quotient(product(mid, VolumeUnit::CubicMeter.spec_ratio()), l.spec_base_value()) == a.spec_base_value()
        }),
{
    lemma_base_canonical(a);
    lemma_base_canonical(l);
    lemma_product_unit_quotient(a.spec_base_value(), l.spec_base_value());
}

/// A length times an area, divided by the area, gives the length's base
/// magnitude back (`l.times_area(a).over_area(a)`), unless the volume does
/// not fit. Stated for finite base magnitudes and a nonzero divisor.
pub proof fn law_volume_over_area(l: Value<LengthUnit>, a: Value<AreaUnit>)
    requires
        is_canonical(l.spec_value()@),
        is_canonical(a.spec_value()@),
        is_finite(l.spec_base_value()),
        is_finite(a.spec_base_value()),
        a.spec_base_value().0 != 0,
    ensures
        ({
            let mid = product(l.spec_base_value(), a.spec_base_value());
            is_nan(mid) || quotient(product(mid, VolumeUnit::CubicMeter.spec_ratio()), a.spec_base_value()) == l.spec_base_value()
        }),
{
    lemma_base_canonical(l);
    lemma_base_canonical(a);
    lemma_product_unit_quotient(l.spec_base_value(), a.spec_base_value());
}

/// A length over a time, times the time, gives the length's base magnitude
/// back (`l.over_time(t).times_time(t)`), unless the velocity does not fit. Stated for finite base magnitudes and a nonzero divisor.
pub proof fn law_velocity_times_time(l: Value<LengthUnit>, t: Value<TimeUnit>)
    requires
        is_canonical(l.spec_value()@),
        is_canonical(t.spec_value()@),
        is_finite(l.spec_base_value()),
        is_finite(t.spec_base_value()),
        t.spec_base_value().0 != 0,
    ensures
        ({
            let mid = quotient(l.spec_base_value(), t.spec_base_value());
            is_nan(mid) || product(product(mid, VelocityUnit::MeterPerSecond.spec_ratio()), t.spec_base_value()) == l.spec_base_value()
        }),
{
    lemma_base_canonical(l);
    lemma_base_canonical(t);
    lemma_quotient_unit_product(l.spec_base_value(), t.spec_base_value());
}

/// A length over a time, and the length over that velocity, gives the
/// time's base magnitude back (`l.over_velocity(l.over_time(t))`), unless
/// the velocity does not fit. Stated for finite nonzero base magnitudes.
pub proof fn law_length_over_velocity(l: Value<LengthUnit>, t: Value<TimeUnit>)
    requires
        is_canonical(l.spec_value()@),
        is_canonical(t.spec_value()@),
        is_finite(l.spec_base_value()),
        is_finite(t.spec_base_value()),
        l.spec_base_value().0 != 0,
        t.spec_base_value().0 != 0,
    ensures
        ({
            let velocity = quotient(l.spec_base_value(), t.spec_base_value());
            is_nan(velocity) || quotient(
                l.spec_base_value(),
                product(velocity, VelocityUnit::MeterPerSecond.spec_ratio()),
            ) == t.spec_base_value()
        }),
{
    lemma_base_canonical(l);
    lemma_base_canonical(t);
    lemma_quotient_unit_quotient(l.spec_base_value(), t.spec_base_value());
}

/// A finite magnitude minus itself is zero; the terms over the common
/// denominator cannot leave the range.
pub proof fn law_difference_with_itself(x: (int, int))
    requires
        is_canonical(x),
        is_finite(x),
    ensures
        difference(x, x) == (0int, 1int),
{
    let d = x.1;
    assert(gcd(d as nat, d as nat) == d) by {
        assert((d as nat) % (d as nat) == 0);
        assert(gcd(d as nat, 0) == d);
    }
    assert(d / d == 1);
    let e = (x.0 * d + (-x.0) * d, d * d);
    assert(x.0 * d + (-x.0) * d == 0) by (nonlinear_arith);
    assert(d * d > 0) by (nonlinear_arith)
        requires
            d > 0,
    ;
    lemma_gcd_one(0);
    lemma_lowest_terms_value(e, (0int, 1int));
}

/// Subtracting a quantity from itself gives zero in the base unit
/// (`q - q`), for a finite base magnitude.
pub proof fn law_quantity_minus_itself<T: Unit>(q: Value<T>)
    requires
        is_canonical(q.spec_value()@),
        is_finite(q.spec_base_value()),
    ensures
        difference(q.spec_base_value(), q.spec_base_value()) == (0int, 1int),
{
    lemma_base_canonical(q);
    law_difference_with_itself(q.spec_base_value());
}

/// The finite pair `p` stands for a number no greater than the finite pair `q`.
pub open spec fn no_greater(p: (int, int), q: (int, int)) -> bool {
    p.0 * q.1 <= q.0 * p.1
}

/// Multiplying by a positive number keeps order.
proof fn lemma_order_product(x: (int, int), y: (int, int), r: (int, int))
    requires
        is_finite(x),
        is_finite(y),
        is_finite(r),
        r.0 > 0,
        no_greater(x, y),
    ensures
        no_greater(exact_product(x, r), exact_product(y, r)),
{
    assert((x.0 * r.0) * (y.1 * r.1) <= (y.0 * r.0) * (x.1 * r.1)) by (nonlinear_arith)
        requires
            x.0 * y.1 <= y.0 * x.1,
            r.0 > 0,
            r.1 > 0,
    ;
}

/// Dividing by a positive number keeps order.
proof fn lemma_order_quotient(x: (int, int), y: (int, int), r: (int, int))
    requires
        is_finite(x),
        is_finite(y),
        is_finite(r),
        r.0 > 0,
        no_greater(x, y),
    ensures
        no_greater(exact_quotient(x, r), exact_quotient(y, r)),
{
    assert((x.0 * r.1) * (y.1 * r.0) <= (y.0 * r.1) * (x.1 * r.0)) by (nonlinear_arith)
        requires
            x.0 * y.1 <= y.0 * x.1,
            r.0 > 0,
            r.1 > 0,
    ;
}

/// Order carries over to pairs standing for the same numbers.
proof fn lemma_order_same(p: (int, int), p2: (int, int), q: (int, int), q2: (int, int))
    requires
        is_finite(p),
        is_finite(p2),
        is_finite(q),
        is_finite(q2),
        same_value(p, p2),
        same_value(q, q2),
        no_greater(p, q),
    ensures
        no_greater(p2, q2),
{
    let k = p.1 * q.1;
    assert(k > 0) by (nonlinear_arith)
        requires
            p.1 > 0,
            q.1 > 0,
            k == p.1 * q.1,
    ;
    assert((p2.0 * q2.1) * k == (p.0 * q.1) * (p2.1 * q2.1)) by (nonlinear_arith)
        requires
            p.0 * p2.1 == p2.0 * p.1,
            k == p.1 * q.1,
    ;
    assert((q2.0 * p2.1) * k == (q.0 * p.1) * (p2.1 * q2.1)) by (nonlinear_arith)
        requires
            q.0 * q2.1 == q2.0 * q.1,
            k == p.1 * q.1,
    ;
    assert((p.0 * q.1) * (p2.1 * q2.1) <= (q.0 * p.1) * (p2.1 * q2.1)) by (nonlinear_arith)
        requires
            p.0 * q.1 <= q.0 * p.1,
            p2.1 > 0,
            q2.1 > 0,
    ;
    assert(p2.0 * q2.1 <= q2.0 * p2.1) by (nonlinear_arith)
        requires
            (p2.0 * q2.1) * k <= (q2.0 * p2.1) * k,
            k > 0,
    ;
}

/// Converting two finite quantities of one unit to another unit keeps their
/// order, wherever neither converted magnitude is NaN (a converted magnitude
/// is NaN only where its lowest terms do not fit in `i128`).
pub proof fn law_convert_keeps_order<T: Unit>(x: Value<T>, y: Value<T>, to: T)
    requires
        is_canonical(x.spec_value()@),
        is_canonical(y.spec_value()@),
        is_finite(x.spec_value()@),
        is_finite(y.spec_value()@),
        x.spec_unit() == y.spec_unit(),
        no_greater(x.spec_value()@, y.spec_value()@),
    ensures
        ({
            let cx = x.spec_converted(to);
            let cy = y.spec_converted(to);
            !is_nan(cx) && !is_nan(cy) ==> is_finite(cx) && is_finite(cy) && no_greater(cx, cy)
        }),
{
    let u = x.spec_unit();
    T::lemma_unit_table(u);
    T::lemma_unit_table(to);
    if to != u {
        let m = x.spec_value()@;
        let n = y.spec_value()@;
        let r0 = u.spec_ratio();
        let r1 = to.spec_ratio();
        let bx = product(m, r0);
        let by = product(n, r0);
        let cx = quotient(bx, r1);
        let cy = quotient(by, r1);
        lemma_nan_propagates(r1);
        if !is_nan(cx) && !is_nan(cy) {
            lemma_product_congruent(m, m, r0);
            lemma_product_congruent(n, n, r0);
            lemma_represent(exact_product(m, r0));
            lemma_represent(exact_product(n, r0));
            lemma_quotient_finite(bx, r1);
            lemma_quotient_finite(by, r1);
            lemma_represent(exact_quotient(bx, r1));
            lemma_represent(exact_quotient(by, r1));
            lemma_order_product(m, n, r0);
            lemma_order_same(exact_product(m, r0), bx, exact_product(n, r0), by);
            lemma_order_quotient(bx, by, r1);
            lemma_order_same(exact_quotient(bx, r1), cx, exact_quotient(by, r1), cy);
        }
    }
}

/// Converting a finite quantity through a middle unit gives the same
/// magnitude as converting it directly, unless the magnitude in the middle
/// unit does not fit (it is then NaN).
pub proof fn law_convert_through<T: Unit>(q: Value<T>, middle: T, to: T)
    requires
        is_canonical(q.spec_value()@),
        is_finite(q.spec_value()@),
    ensures
        ({
            let m = q.spec_value()@;
            let there = converted(m, q.spec_unit(), middle);
            is_nan(there) || converted(there, middle, to) == converted(m, q.spec_unit(), to)
        }),
{
    let m = q.spec_value()@;
    let u0 = q.spec_unit();
    T::lemma_unit_table(u0);
    T::lemma_unit_table(middle);
    T::lemma_unit_table(to);
    if middle != u0 {
        let r0 = u0.spec_ratio();
        let r1 = middle.spec_ratio();
        let b = product(m, r0);
        let m1 = quotient(b, r1);
        lemma_nan_propagates(r1);
        if !is_nan(m1) {
            law_round_trip(q, middle);
            if to != middle && to != u0 {
                lemma_product_congruent(m, m, r0);
                lemma_represent(exact_product(m, r0));
                lemma_quotient_finite(b, r1);
                lemma_represent(exact_quotient(b, r1));
                lemma_quotient_then_product(b, r1);
                lemma_product_congruent(m1, exact_quotient(b, r1), r1);
                lemma_same_transitive(
                    exact_product(m1, r1),
                    exact_product(exact_quotient(b, r1), r1),
                    b,
                );
                lemma_lowest_terms_value(exact_product(m1, r1), b);
            }
        }
    }
}

/// Negating an exact pair negates what is stored for it.
proof fn lemma_represent_negation(e: (int, int))
    requires
        e.1 >= 0,
    ensures
        represent(negation(e)) == negation(represent(e)),
{
    if e.1 > 0 {
        assert(vstd::math::abs(-e.0) == vstd::math::abs(e.0));
        assert(sign(-e.0) == -sign(e.0));
        let g = gcd(vstd::math::abs(e.0), e.1 as nat) as int;
        let n = vstd::math::abs(e.0) as int / g;
        assert(sign(-e.0) * n == -(sign(e.0) * n)) by (nonlinear_arith)
            requires
                sign(-e.0) == -sign(e.0),
        ;
    }
}

/// Subtraction is anti-commutative: `x - y` is the negation of `y - x`,
/// NaN included.
pub proof fn law_difference_anticommutative(x: (int, int), y: (int, int))
    requires
        is_canonical(x),
        is_canonical(y),
    ensures
        difference(x, y) == negation(difference(y, x)),
{
    let nx = negation(x);
    let ny = negation(y);
    let e = exact_sum(x, ny);
    let f = exact_sum(y, nx);
    if x.1 == 0 && y.1 == 0 {
        assert(f == negation(e));
    } else {
        assert(f == negation(e)) by (nonlinear_arith)
            requires
                e == (x.0 * y.1 + (-y.0) * x.1, x.1 * y.1),
                f == (y.0 * x.1 + (-x.0) * y.1, y.1 * x.1),
        ;
    }
    assert(e.1 >= 0) by (nonlinear_arith)
        requires
            x.1 >= 0,
            y.1 >= 0,
            e.1 == x.1 * y.1 || e.1 == x.1,
    ;
    lemma_represent_negation(e);
    if x.1 > 0 && y.1 > 0 {
        lemma_gcd_symmetric(x.1 as nat, y.1 as nat);
        lemma_gcd_divides(x.1 as nat, y.1 as nat);
        let g = gcd(x.1 as nat, y.1 as nat) as int;
        lemma_fundamental_div_mod(x.1, g);
        lemma_fundamental_div_mod(y.1, g);
        let (x1, y1) = (x.1 / g, y.1 / g);
        assert(x1 * y.1 == y1 * x.1) by (nonlinear_arith)
            requires
                x.1 == g * x1,
                y.1 == g * y1,
        ;
        assert(sum_fits(x, ny) == sum_fits(y, nx)) by (nonlinear_arith)
            requires
                x1 == x.1 / g,
                y1 == y.1 / g,
                x1 * y.1 == y1 * x.1,
                g == gcd(x.1 as nat, y.1 as nat),
                g == gcd(y.1 as nat, x.1 as nat),
                ny == (-y.0, y.1),
                nx == (-x.0, x.1),
        ;
    }
}

} // verus!
