//! Products and quotients across dimensions. Each is computed on base
//! magnitudes and expressed in the base unit of the result's dimension.
use vstd::prelude::*;
use crate::magnitude::{product, quotient};
use crate::value::Value;
use crate::length::LengthUnit;
use crate::area::AreaUnit;
use crate::volume::VolumeUnit;
use crate::time::TimeUnit;
use crate::velocity::VelocityUnit;

verus! {

impl Value<LengthUnit> {
    /// Length times length is area.
    pub fn times_length(&self, rhs: &Value<LengthUnit>) -> (r: Value<AreaUnit>)
        ensures
            r.spec_unit() == AreaUnit::SquareMeter,
            r.spec_value()@ == product(self.spec_base_value(), rhs.spec_base_value()),
    {
        Value::new(AreaUnit::SquareMeter, self.base_value().times(rhs.base_value()))
    }

    /// Length times area is volume.
    pub fn times_area(&self, rhs: &Value<AreaUnit>) -> (r: Value<VolumeUnit>)
        ensures
            r.spec_unit() == VolumeUnit::CubicMeter,
            r.spec_value()@ == product(self.spec_base_value(), rhs.spec_base_value()),
    {
        Value::new(VolumeUnit::CubicMeter, self.base_value().times(rhs.base_value()))
    }

    /// Length over time is velocity.
    pub fn over_time(&self, rhs: &Value<TimeUnit>) -> (r: Value<VelocityUnit>)
        ensures
            r.spec_unit() == VelocityUnit::MeterPerSecond,
            r.spec_value()@ == quotient(self.spec_base_value(), rhs.spec_base_value()),
    {
        Value::new(VelocityUnit::MeterPerSecond, self.base_value().divided_by(rhs.base_value()))
    }

    /// Length over velocity is time.
    pub fn over_velocity(&self, rhs: &Value<VelocityUnit>) -> (r: Value<TimeUnit>)
        ensures
            r.spec_unit() == TimeUnit::Seconds,
            r.spec_value()@ == quotient(self.spec_base_value(), rhs.spec_base_value()),
    {
        Value::new(TimeUnit::Seconds, self.base_value().divided_by(rhs.base_value()))
    }
}

impl Value<AreaUnit> {
    /// Area times length is volume.
    pub fn times_length(&self, rhs: &Value<LengthUnit>) -> (r: Value<VolumeUnit>)
        ensures
            r.spec_unit() == VolumeUnit::CubicMeter,
            r.spec_value()@ == product(self.spec_base_value(), rhs.spec_base_value()),
    {
        Value::new(VolumeUnit::CubicMeter, self.base_value().times(rhs.base_value()))
    }

    /// Area over length is length.
    pub fn over_length(&self, rhs: &Value<LengthUnit>) -> (r: Value<LengthUnit>)
        ensures
            r.spec_unit() == LengthUnit::Meter,
            r.spec_value()@ == quotient(self.spec_base_value(), rhs.spec_base_value()),
    {
        Value::new(LengthUnit::Meter, self.base_value().divided_by(rhs.base_value()))
    }
}

impl Value<VolumeUnit> {
    /// Volume over length is area.
    pub fn over_length(&self, rhs: &Value<LengthUnit>) -> (r: Value<AreaUnit>)
        ensures
            r.spec_unit() == AreaUnit::SquareMeter,
            r.spec_value()@ == quotient(self.spec_base_value(), rhs.spec_base_value()),
    {
        Value::new(AreaUnit::SquareMeter, self.base_value().divided_by(rhs.base_value()))
    }

    /// Volume over area is length.
    pub fn over_area(&self, rhs: &Value<AreaUnit>) -> (r: Value<LengthUnit>)
        ensures
            r.spec_unit() == LengthUnit::Meter,
            r.spec_value()@ == quotient(self.spec_base_value(), rhs.spec_base_value()),
    {
        Value::new(LengthUnit::Meter, self.base_value().divided_by(rhs.base_value()))
    }
}

impl Value<VelocityUnit> {
    /// Velocity times time is length.
    pub fn times_time(&self, rhs: &Value<TimeUnit>) -> (r: Value<LengthUnit>)
        ensures
            r.spec_unit() == LengthUnit::Meter,
            r.spec_value()@ == product(self.spec_base_value(), rhs.spec_base_value()),
    {
        Value::new(LengthUnit::Meter, self.base_value().times(rhs.base_value()))
    }
}

impl core::ops::Mul<Value<LengthUnit>> for Value<LengthUnit> {
    type Output = Value<AreaUnit>;

    fn mul(self, rhs: Value<LengthUnit>) -> (r: Value<AreaUnit>)
        ensures
            r.spec_unit() == AreaUnit::SquareMeter,
            r.spec_value()@ == product(self.spec_base_value(), rhs.spec_base_value()),
    {
        let r = self.times_length(&rhs);
        proof {
            Value::lemma_spec_new(r);
        }
        r
    }
}

impl vstd::std_specs::ops::MulSpecImpl<Value<LengthUnit>> for Value<LengthUnit> {
    open spec fn obeys_mul_spec() -> bool {
        true
    }

    open spec fn mul_req(self, rhs: Value<LengthUnit>) -> bool {
        true
    }

    open spec fn mul_spec(self, rhs: Value<LengthUnit>) -> Value<AreaUnit> {
        Value::spec_new(AreaUnit::SquareMeter, product(self.spec_base_value(), rhs.spec_base_value()))
    }
}

impl core::ops::Mul<Value<AreaUnit>> for Value<LengthUnit> {
    type Output = Value<VolumeUnit>;

    fn mul(self, rhs: Value<AreaUnit>) -> (r: Value<VolumeUnit>)
        ensures
            r.spec_unit() == VolumeUnit::CubicMeter,
            r.spec_value()@ == product(self.spec_base_value(), rhs.spec_base_value()),
    {
        let r = self.times_area(&rhs);
        proof {
            Value::lemma_spec_new(r);
        }
        r
    }
}

impl vstd::std_specs::ops::MulSpecImpl<Value<AreaUnit>> for Value<LengthUnit> {
    open spec fn obeys_mul_spec() -> bool {
        true
    }

    open spec fn mul_req(self, rhs: Value<AreaUnit>) -> bool {
        true
    }

    open spec fn mul_spec(self, rhs: Value<AreaUnit>) -> Value<VolumeUnit> {
        Value::spec_new(VolumeUnit::CubicMeter, product(self.spec_base_value(), rhs.spec_base_value()))
    }
}

impl core::ops::Mul<Value<LengthUnit>> for Value<AreaUnit> {
    type Output = Value<VolumeUnit>;

    fn mul(self, rhs: Value<LengthUnit>) -> (r: Value<VolumeUnit>)
        ensures
            r.spec_unit() == VolumeUnit::CubicMeter,
            r.spec_value()@ == product(self.spec_base_value(), rhs.spec_base_value()),
    {
        let r = self.times_length(&rhs);
        proof {
            Value::lemma_spec_new(r);
        }
        r
    }
}

impl vstd::std_specs::ops::MulSpecImpl<Value<LengthUnit>> for Value<AreaUnit> {
    open spec fn obeys_mul_spec() -> bool {
        true
    }

    open spec fn mul_req(self, rhs: Value<LengthUnit>) -> bool {
        true
    }

    open spec fn mul_spec(self, rhs: Value<LengthUnit>) -> Value<VolumeUnit> {
        Value::spec_new(VolumeUnit::CubicMeter, product(self.spec_base_value(), rhs.spec_base_value()))
    }
}

impl core::ops::Div<Value<LengthUnit>> for Value<AreaUnit> {
    type Output = Value<LengthUnit>;

    fn div(self, rhs: Value<LengthUnit>) -> (r: Value<LengthUnit>)
        ensures
            r.spec_unit() == LengthUnit::Meter,
            r.spec_value()@ == quotient(self.spec_base_value(), rhs.spec_base_value()),
    {
        let r = self.over_length(&rhs);
        proof {
            Value::lemma_spec_new(r);
        }
        r
    }
}

impl vstd::std_specs::ops::DivSpecImpl<Value<LengthUnit>> for Value<AreaUnit> {
    open spec fn obeys_div_spec() -> bool {
        true
    }

    open spec fn div_req(self, rhs: Value<LengthUnit>) -> bool {
        true
    }

    open spec fn div_spec(self, rhs: Value<LengthUnit>) -> Value<LengthUnit> {
        Value::spec_new(LengthUnit::Meter, quotient(self.spec_base_value(), rhs.spec_base_value()))
    }
}

impl core::ops::Div<Value<LengthUnit>> for Value<VolumeUnit> {
    type Output = Value<AreaUnit>;

    fn div(self, rhs: Value<LengthUnit>) -> (r: Value<AreaUnit>)
        ensures
            r.spec_unit() == AreaUnit::SquareMeter,
            r.spec_value()@ == quotient(self.spec_base_value(), rhs.spec_base_value()),
    {
        let r = self.over_length(&rhs);
        proof {
            Value::lemma_spec_new(r);
        }
        r
    }
}

impl vstd::std_specs::ops::DivSpecImpl<Value<LengthUnit>> for Value<VolumeUnit> {
    open spec fn obeys_div_spec() -> bool {
        true
    }

    open spec fn div_req(self, rhs: Value<LengthUnit>) -> bool {
        true
    }

    open spec fn div_spec(self, rhs: Value<LengthUnit>) -> Value<AreaUnit> {
        Value::spec_new(AreaUnit::SquareMeter, quotient(self.spec_base_value(), rhs.spec_base_value()))
    }
}

impl core::ops::Div<Value<AreaUnit>> for Value<VolumeUnit> {
    type Output = Value<LengthUnit>;

    fn div(self, rhs: Value<AreaUnit>) -> (r: Value<LengthUnit>)
        ensures
            r.spec_unit() == LengthUnit::Meter,
            r.spec_value()@ == quotient(self.spec_base_value(), rhs.spec_base_value()),
    {
        let r = self.over_area(&rhs);
        proof {
            Value::lemma_spec_new(r);
        }
        r
    }
}

impl vstd::std_specs::ops::DivSpecImpl<Value<AreaUnit>> for Value<VolumeUnit> {
    open spec fn obeys_div_spec() -> bool {
        true
    }

    open spec fn div_req(self, rhs: Value<AreaUnit>) -> bool {
        true
    }

    open spec fn div_spec(self, rhs: Value<AreaUnit>) -> Value<LengthUnit> {
        Value::spec_new(LengthUnit::Meter, quotient(self.spec_base_value(), rhs.spec_base_value()))
    }
}

impl core::ops::Div<Value<TimeUnit>> for Value<LengthUnit> {
    type Output = Value<VelocityUnit>;

    fn div(self, rhs: Value<TimeUnit>) -> (r: Value<VelocityUnit>)
        ensures
            r.spec_unit() == VelocityUnit::MeterPerSecond,
            r.spec_value()@ == quotient(self.spec_base_value(), rhs.spec_base_value()),
    {
        let r = self.over_time(&rhs);
        proof {
            Value::lemma_spec_new(r);
        }
        r
    }
}

impl vstd::std_specs::ops::DivSpecImpl<Value<TimeUnit>> for Value<LengthUnit> {
    open spec fn obeys_div_spec() -> bool {
        true
    }

    open spec fn div_req(self, rhs: Value<TimeUnit>) -> bool {
        true
    }

    open spec fn div_spec(self, rhs: Value<TimeUnit>) -> Value<VelocityUnit> {
        Value::spec_new(VelocityUnit::MeterPerSecond, quotient(self.spec_base_value(), rhs.spec_base_value()))
    }
}

impl core::ops::Div<Value<VelocityUnit>> for Value<LengthUnit> {
    type Output = Value<TimeUnit>;

    fn div(self, rhs: Value<VelocityUnit>) -> (r: Value<TimeUnit>)
        ensures
            r.spec_unit() == TimeUnit::Seconds,
            r.spec_value()@ == quotient(self.spec_base_value(), rhs.spec_base_value()),
    {
        let r = self.over_velocity(&rhs);
        proof {
            Value::lemma_spec_new(r);
        }
        r
    }
}

impl vstd::std_specs::ops::DivSpecImpl<Value<VelocityUnit>> for Value<LengthUnit> {
    open spec fn obeys_div_spec() -> bool {
        true
    }

    open spec fn div_req(self, rhs: Value<VelocityUnit>) -> bool {
        true
    }

    open spec fn div_spec(self, rhs: Value<VelocityUnit>) -> Value<TimeUnit> {
        Value::spec_new(TimeUnit::Seconds, quotient(self.spec_base_value(), rhs.spec_base_value()))
    }
}

impl core::ops::Mul<Value<TimeUnit>> for Value<VelocityUnit> {
    type Output = Value<LengthUnit>;

    fn mul(self, rhs: Value<TimeUnit>) -> (r: Value<LengthUnit>)
        ensures
            r.spec_unit() == LengthUnit::Meter,
            r.spec_value()@ == product(self.spec_base_value(), rhs.spec_base_value()),
    {
        let r = self.times_time(&rhs);
        proof {
            Value::lemma_spec_new(r);
        }
        r
    }
}

impl vstd::std_specs::ops::MulSpecImpl<Value<TimeUnit>> for Value<VelocityUnit> {
    open spec fn obeys_mul_spec() -> bool {
        true
    }

    open spec fn mul_req(self, rhs: Value<TimeUnit>) -> bool {
        true
    }

    open spec fn mul_spec(self, rhs: Value<TimeUnit>) -> Value<LengthUnit> {
        Value::spec_new(LengthUnit::Meter, product(self.spec_base_value(), rhs.spec_base_value()))
    }
}

} // verus!
