//! Units of mass; the base unit is the kilogram.
use vstd::prelude::*;
use crate::magnitude::{Magnitude, lemma_gcd_one, lemma_represent_reduced};
use crate::value::Unit;

verus! {

#[derive(Clone, Copy, Debug, PartialEq, Eq, Structural)]
pub enum MassUnit {
    Kilogram,
    Gram,
}

impl Unit for MassUnit {
    open spec fn spec_ratio(&self) -> (int, int) {
        match self {
            MassUnit::Kilogram => (1, 1),
            MassUnit::Gram => (1, 1000),
        }
    }

    open spec fn spec_abbr(&self) -> Seq<char> {
        match self {
            MassUnit::Kilogram => seq!['k', 'g'],
            MassUnit::Gram => seq!['g'],
        }
    }

    open spec fn spec_base() -> MassUnit {
        MassUnit::Kilogram
    }

    proof fn lemma_unit_table(u: MassUnit) {
        lemma_gcd_one(1);
        lemma_gcd_one(1000);
    }

    fn ratio(&self) -> (r: Magnitude) {
        proof {
            lemma_gcd_one(1000);
            lemma_represent_reduced((1, 1000));
        }
        match self {
            MassUnit::Kilogram => Magnitude::from_int(1),
            MassUnit::Gram => Magnitude::fraction(1, 1000),
        }
    }

    fn abbr(&self) -> (r: String) {
        proof {
            reveal_strlit("kg");
            reveal_strlit("g");
        }
        match self {
            MassUnit::Kilogram => String::from_str("kg"),
            MassUnit::Gram => String::from_str("g"),
        }
    }

    fn base() -> (r: MassUnit) {
        MassUnit::Kilogram
    }

    fn same(&self, other: &MassUnit) -> (r: bool) {
        *self == *other
    }
}

} // verus!
