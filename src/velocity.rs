//! Units of velocity; the base unit is the meter per second.
use vstd::prelude::*;
use crate::magnitude::{Magnitude, lemma_gcd_one, lemma_represent_reduced};
use crate::number::gcd;
use crate::value::Unit;

verus! {

#[derive(Clone, Copy, Debug, PartialEq, Eq, Structural)]
pub enum VelocityUnit {
    MeterPerSecond,
    KilometerPerHour,
}

impl Unit for VelocityUnit {
    open spec fn spec_ratio(&self) -> (int, int) {
        match self {
            VelocityUnit::KilometerPerHour => (5, 18),
            VelocityUnit::MeterPerSecond => (1, 1),
        }
    }

    open spec fn spec_abbr(&self) -> Seq<char> {
        match self {
            VelocityUnit::KilometerPerHour => seq!['k', 'm', '/', 'h'],
            VelocityUnit::MeterPerSecond => seq!['m', '/', 's'],
        }
    }

    open spec fn spec_base() -> VelocityUnit {
        VelocityUnit::MeterPerSecond
    }

    proof fn lemma_unit_table(u: VelocityUnit) {
        assert(gcd(5, 18) == 1) by {
            reveal_with_fuel(gcd, 7);
        }
        lemma_gcd_one(1);
    }

    fn ratio(&self) -> (r: Magnitude) {
        proof {
            assert(gcd(5, 18) == 1) by {
                reveal_with_fuel(gcd, 7);
            }
            lemma_represent_reduced((5, 18));
        }
        match self {
            VelocityUnit::KilometerPerHour => Magnitude::fraction(5, 18),
            VelocityUnit::MeterPerSecond => Magnitude::from_int(1),
        }
    }

    fn abbr(&self) -> (r: String) {
        proof {
            reveal_strlit("km/h");
            reveal_strlit("m/s");
        }
        match self {
            VelocityUnit::KilometerPerHour => String::from_str("km/h"),
            VelocityUnit::MeterPerSecond => String::from_str("m/s"),
        }
    }

    fn base() -> (r: VelocityUnit) {
        VelocityUnit::MeterPerSecond
    }

    fn same(&self, other: &VelocityUnit) -> (r: bool) {
        *self == *other
    }
}

} // verus!
