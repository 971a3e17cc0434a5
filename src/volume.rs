//! Units of volume; the base unit is the cubic meter.
use vstd::prelude::*;
use crate::magnitude::{Magnitude, lemma_gcd_one, lemma_represent_reduced};
use crate::value::Unit;

verus! {

#[derive(Clone, Copy, Debug, PartialEq, Eq, Structural)]
pub enum VolumeUnit {
    CubicMillimeter,
    CubicCentimeter,
    CubicMeter,
    CubicKilometer,
}

impl Unit for VolumeUnit {
    open spec fn spec_ratio(&self) -> (int, int) {
        match self {
            VolumeUnit::CubicKilometer => (1000000000, 1),
            VolumeUnit::CubicMeter => (1, 1),
            VolumeUnit::CubicCentimeter => (1, 1000000),
            VolumeUnit::CubicMillimeter => (1, 1000000000),
        }
    }

    open spec fn spec_abbr(&self) -> Seq<char> {
        match self {
            VolumeUnit::CubicKilometer => seq!['k', 'm', '³'],
            VolumeUnit::CubicMeter => seq!['m', '³'],
            VolumeUnit::CubicCentimeter => seq!['c', 'm', '³'],
            VolumeUnit::CubicMillimeter => seq!['m', 'm', '³'],
        }
    }

    open spec fn spec_base() -> VolumeUnit {
        VolumeUnit::CubicMeter
    }

    proof fn lemma_unit_table(u: VolumeUnit) {
        lemma_gcd_one(1000000000);
        lemma_gcd_one(1);
        lemma_gcd_one(1000000);
        lemma_gcd_one(1000000000);
    }

    fn ratio(&self) -> (r: Magnitude) {
        proof {
            lemma_gcd_one(1000000);
            lemma_represent_reduced((1, 1000000));
            lemma_gcd_one(1000000000);
            lemma_represent_reduced((1, 1000000000));
        }
        match self {
            VolumeUnit::CubicKilometer => Magnitude::from_int(1000000000),
            VolumeUnit::CubicMeter => Magnitude::from_int(1),
            VolumeUnit::CubicCentimeter => Magnitude::fraction(1, 1000000),
            VolumeUnit::CubicMillimeter => Magnitude::fraction(1, 1000000000),
        }
    }

    fn abbr(&self) -> (r: String) {
        proof {
            reveal_strlit("km³");
            reveal_strlit("m³");
            reveal_strlit("cm³");
            reveal_strlit("mm³");
        }
        match self {
            VolumeUnit::CubicKilometer => String::from_str("km³"),
            VolumeUnit::CubicMeter => String::from_str("m³"),
            VolumeUnit::CubicCentimeter => String::from_str("cm³"),
            VolumeUnit::CubicMillimeter => String::from_str("mm³"),
        }
    }

    fn base() -> (r: VolumeUnit) {
        VolumeUnit::CubicMeter
    }

    fn same(&self, other: &VolumeUnit) -> (r: bool) {
        *self == *other
    }
}

} // verus!
