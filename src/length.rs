//! Units of length; the base unit is the meter.
use vstd::prelude::*;
use crate::magnitude::{Magnitude, is_canonical, lemma_gcd_one, lemma_represent_reduced};
use crate::value::Unit;

verus! {

#[derive(Clone, Copy, Debug, PartialEq, Eq, Structural)]
pub enum LengthUnit {
    Millimeter,
    Centimeter,
    Meter,
    Kilometer,
}

impl Unit for LengthUnit {
    open spec fn spec_ratio(&self) -> (int, int) {
        match self {
            LengthUnit::Kilometer => (1000, 1),
            LengthUnit::Meter => (1, 1),
            LengthUnit::Centimeter => (1, 100),
            LengthUnit::Millimeter => (1, 1000),
        }
    }

    open spec fn spec_abbr(&self) -> Seq<char> {
        match self {
            LengthUnit::Kilometer => seq!['k', 'm'],
            LengthUnit::Meter => seq!['m'],
            LengthUnit::Centimeter => seq!['c', 'm'],
            LengthUnit::Millimeter => seq!['m', 'm'],
        }
    }

    open spec fn spec_base() -> LengthUnit {
        LengthUnit::Meter
    }

    proof fn lemma_unit_table(u: LengthUnit) {
        lemma_gcd_one(1000);
        lemma_gcd_one(1);
        lemma_gcd_one(100);
        lemma_gcd_one(1000);
    }

    fn ratio(&self) -> (r: Magnitude) {
        proof {
            lemma_gcd_one(100);
            lemma_gcd_one(1000);
            lemma_represent_reduced((1, 100));
            lemma_represent_reduced((1, 1000));
        }
        match self {
            LengthUnit::Kilometer => Magnitude::from_int(1000),
            LengthUnit::Meter => Magnitude::from_int(1),
            LengthUnit::Centimeter => Magnitude::fraction(1, 100),
            LengthUnit::Millimeter => Magnitude::fraction(1, 1000),
        }
    }

    fn abbr(&self) -> (r: String) {
        proof {
            reveal_strlit("km");
            reveal_strlit("m");
            reveal_strlit("cm");
            reveal_strlit("mm");
        }
        match self {
            LengthUnit::Kilometer => String::from_str("km"),
            LengthUnit::Meter => String::from_str("m"),
            LengthUnit::Centimeter => String::from_str("cm"),
            LengthUnit::Millimeter => String::from_str("mm"),
        }
    }

    fn base() -> (r: LengthUnit) {
        LengthUnit::Meter
    }

    fn same(&self, other: &LengthUnit) -> (r: bool) {
        *self == *other
    }
}

} // verus!
