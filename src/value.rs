//! Units of measure and quantities: a magnitude tied to a unit.
use vstd::prelude::*;
use crate::magnitude::{Magnitude, is_canonical, product, quotient, sum, difference};
use crate::text::magnitude_text;

verus! {

/// The units of one dimension. Each unit converts to the dimension's base
/// unit by a positive exact ratio, and exactly one unit, the base, has
/// ratio one.
pub trait Unit: Sized + Copy {
    /// Base-unit magnitude of one of this unit, as a pair (numerator, denominator).
    spec fn spec_ratio(&self) -> (int, int);

    /// The abbreviation shown after a magnitude.
    spec fn spec_abbr(&self) -> Seq<char>;

    /// The base unit of the dimension.
    spec fn spec_base() -> Self;

    /// Every ratio is a positive finite magnitude, the base unit has ratio
    /// one and no other unit has, and every abbreviation is non-empty.
    proof fn lemma_unit_table(u: Self)
        ensures
            is_canonical(u.spec_ratio()),
            u.spec_ratio().0 > 0,
            u.spec_ratio().1 > 0,
            Self::spec_base().spec_ratio() == (1int, 1int),
            u.spec_ratio() == (1int, 1int) <==> u == Self::spec_base(),
            u.spec_abbr().len() > 0,
    ;

    /// Base-unit magnitude of one of this unit.
    fn ratio(&self) -> (r: Magnitude)
        ensures
            r@ == self.spec_ratio(),
    ;

    /// The abbreviation shown after a magnitude, e.g. `km`.
    fn abbr(&self) -> (r: String)
        ensures
            r@ == self.spec_abbr(),
    ;

    /// The base unit of the dimension.
    fn base() -> (r: Self)
        ensures
            r == Self::spec_base(),
    ;

    /// Whether the two units are one and the same.
    fn same(&self, other: &Self) -> (r: bool)
        ensures
            r == (*self == *other),
    ;
}

/// The magnitude `m`, measured in `from`, expressed in `to`: unchanged
/// where the units are the same, else its base magnitude over the ratio of
/// `to`.
pub open spec fn converted<T: Unit>(m: (int, int), from: T, to: T) -> (int, int) {
    if to == from {
        m
    } else {
        quotient(product(m, from.spec_ratio()), to.spec_ratio())
    }
}

/// A magnitude measured in a unit of one dimension.
#[derive(Clone, Copy, Debug)]
pub struct Value<T> {
    unit: T,
    value: Magnitude,
}

impl<T: Unit> Value<T> {
    pub closed spec fn spec_unit(&self) -> T {
        self.unit
    }

    pub closed spec fn spec_value(&self) -> Magnitude {
        self.value
    }

    /// The quantity of `value` in `unit`, as `new` makes it.
    pub closed spec fn spec_new(unit: T, value: (int, int)) -> Value<T> {
        Value { unit, value: Magnitude::from_pair(value) }
    }

    /// A quantity is determined by its unit and the view of its magnitude.
    pub proof fn lemma_spec_new(q: Value<T>)
        ensures
            Value::spec_new(q.spec_unit(), q.spec_value()@) == q,
    {
        Magnitude::lemma_from_view(q.value);
    }

    /// The magnitude expressed in the base unit: magnitude times ratio.
    pub open spec fn spec_base_value(&self) -> (int, int) {
        product(self.spec_value()@, self.spec_unit().spec_ratio())
    }

    /// The magnitude of `self` expressed in `unit`.
    pub open spec fn spec_converted(&self, unit: T) -> (int, int) {
        converted(self.spec_value()@, self.spec_unit(), unit)
    }

    pub fn new(unit: T, value: Magnitude) -> (r: Value<T>)
        ensures
            r.spec_unit() == unit,
            r.spec_value() == value,
    {
        Value { unit, value }
    }

    pub fn value(&self) -> (r: Magnitude)
        ensures
            r == self.spec_value(),
    {
        self.value
    }

    pub fn unit(&self) -> (r: T)
        ensures
            r == self.spec_unit(),
    {
        self.unit
    }

    pub fn base_value(&self) -> (r: Magnitude)
        ensures
            r@ == self.spec_base_value(),
    {
        self.value.times(self.unit.ratio())
    }

    /// The same quantity in another unit of the dimension.
    pub fn convert(&self, unit: T) -> (r: Value<T>)
        ensures
            r.spec_unit() == unit,
            r.spec_value()@ == self.spec_converted(unit),
            unit == self.spec_unit() ==> r.spec_value() == self.spec_value(),
    {
        if unit.same(&self.unit) {
            Value { unit, value: self.value }
        } else {
            Value { unit, value: self.base_value().divided_by(unit.ratio()) }
        }
    }

    /// The sum, in the base unit of the dimension.
    pub fn plus(&self, other: &Value<T>) -> (r: Value<T>)
        ensures
            r.spec_unit() == T::spec_base(),
            r.spec_value()@ == sum(self.spec_base_value(), other.spec_base_value()),
    {
        Value { unit: T::base(), value: self.base_value().plus(other.base_value()) }
    }

    /// The difference, in the base unit of the dimension.
    pub fn minus(&self, other: &Value<T>) -> (r: Value<T>)
        ensures
            r.spec_unit() == T::spec_base(),
            r.spec_value()@ == difference(self.spec_base_value(), other.spec_base_value()),
    {
        Value { unit: T::base(), value: self.base_value().minus(other.base_value()) }
    }

    /// The magnitude's text followed by the unit's abbreviation, with no
    /// space between: `3km`, `20.2ms`.
    pub fn to_string(&self) -> (r: String)
        ensures
            r@ == magnitude_text(self.spec_value()@) + self.spec_unit().spec_abbr(),
    {
        let mut s = self.value.to_string();
        let abbr = self.unit.abbr();
        s.append(abbr.as_str());
        s
    }
}

impl<T: Unit> core::ops::Add for Value<T> {
    type Output = Value<T>;

    /// The sum, in the base unit of the dimension.
    fn add(self, rhs: Value<T>) -> (r: Value<T>)
        ensures
            r.spec_unit() == T::spec_base(),
            r.spec_value()@ == sum(self.spec_base_value(), rhs.spec_base_value()),
    {
        let r = self.plus(&rhs);
        proof {
            Value::lemma_spec_new(r);
        }
        r
    }
}

impl<T: Unit> vstd::std_specs::ops::AddSpecImpl for Value<T> {
    open spec fn obeys_add_spec() -> bool {
        true
    }

    open spec fn add_req(self, rhs: Value<T>) -> bool {
        true
    }

    open spec fn add_spec(self, rhs: Value<T>) -> Value<T> {
        Value::spec_new(T::spec_base(), sum(self.spec_base_value(), rhs.spec_base_value()))
    }
}

impl<T: Unit> core::ops::Sub for Value<T> {
    type Output = Value<T>;

    /// The difference, in the base unit of the dimension.
    fn sub(self, rhs: Value<T>) -> (r: Value<T>)
        ensures
            r.spec_unit() == T::spec_base(),
            r.spec_value()@ == difference(self.spec_base_value(), rhs.spec_base_value()),
    {
        let r = self.minus(&rhs);
        proof {
            Value::lemma_spec_new(r);
        }
        r
    }
}

impl<T: Unit> vstd::std_specs::ops::SubSpecImpl for Value<T> {
    open spec fn obeys_sub_spec() -> bool {
        true
    }

    open spec fn sub_req(self, rhs: Value<T>) -> bool {
        true
    }

    open spec fn sub_spec(self, rhs: Value<T>) -> Value<T> {
        Value::spec_new(T::spec_base(), difference(self.spec_base_value(), rhs.spec_base_value()))
    }
}

impl<T: Unit> core::ops::AddAssign for Value<T> {
    /// Replaces `self` by `self + rhs`, in the base unit of the dimension.
    fn add_assign(&mut self, rhs: Value<T>)
        ensures
            final(self).spec_unit() == T::spec_base(),
            final(self).spec_value()@ == sum(old(self).spec_base_value(), rhs.spec_base_value()),
    {
        *self = self.plus(&rhs);
    }
}

impl<T: Unit> core::ops::SubAssign for Value<T> {
    /// Replaces `self` by `self - rhs`, in the base unit of the dimension.
    fn sub_assign(&mut self, rhs: Value<T>)
        ensures
            final(self).spec_unit() == T::spec_base(),
            final(self).spec_value()@ == difference(old(self).spec_base_value(), rhs.spec_base_value()),
    {
        *self = self.minus(&rhs);
    }
}

} // verus!
