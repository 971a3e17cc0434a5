//! Units of area; the base unit is the square meter.
use vstd::prelude::*;
use crate::magnitude::{Magnitude, lemma_gcd_one, lemma_represent_reduced};
use crate::value::Unit;

verus! {

#[derive(Clone, Copy, Debug, PartialEq, Eq, Structural)]
pub enum AreaUnit {
    SquareMillimeter,
    SquareCentimeter,
    SquareMeter,
    SquareKilometer,
}

impl Unit for AreaUnit {
    open spec fn spec_ratio(&self) -> (int, int) {
        match self {
            AreaUnit::SquareKilometer => (1000000, 1),
            AreaUnit::SquareMeter => (1, 1),
            AreaUnit::SquareCentimeter => (1, 10000),
            AreaUnit::SquareMillimeter => (1, 1000000),
        }
    }

    open spec fn spec_abbr(&self) -> Seq<char> {
        match self {
            AreaUnit::SquareKilometer => seq!['k', 'm', '²'],
            AreaUnit::SquareMeter => seq!['m', '²'],
            AreaUnit::SquareCentimeter => seq!['c', 'm', '²'],
            AreaUnit::SquareMillimeter => seq!['m', 'm', '²'],
        }
    }

    open spec fn spec_base() -> AreaUnit {
        AreaUnit::SquareMeter
    }

    proof fn lemma_unit_table(u: AreaUnit) {
        lemma_gcd_one(1000000);
        lemma_gcd_one(1);
        lemma_gcd_one(10000);
        lemma_gcd_one(1000000);
    }

    fn ratio(&self) -> (r: Magnitude) {
        proof {
            lemma_gcd_one(10000);
            lemma_represent_reduced((1, 10000));
            lemma_gcd_one(1000000);
            lemma_represent_reduced((1, 1000000));
        }
        match self {
            AreaUnit::SquareKilometer => Magnitude::from_int(1000000),
            AreaUnit::SquareMeter => Magnitude::from_int(1),
            AreaUnit::SquareCentimeter => Magnitude::fraction(1, 10000),
            AreaUnit::SquareMillimeter => Magnitude::fraction(1, 1000000),
        }
    }

    fn abbr(&self) -> (r: String) {
        proof {
            reveal_strlit("km²");
            reveal_strlit("m²");
            reveal_strlit("cm²");
            reveal_strlit("mm²");
        }
        match self {
            AreaUnit::SquareKilometer => String::from_str("km²"),
            AreaUnit::SquareMeter => String::from_str("m²"),
            AreaUnit::SquareCentimeter => String::from_str("cm²"),
            AreaUnit::SquareMillimeter => String::from_str("mm²"),
        }
    }

    fn base() -> (r: AreaUnit) {
        AreaUnit::SquareMeter
    }

    fn same(&self, other: &AreaUnit) -> (r: bool) {
        *self == *other
    }
}

} // verus!
