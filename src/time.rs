//! Units of time; the base unit is the second.
use vstd::prelude::*;
use crate::magnitude::{Magnitude, lemma_gcd_one, lemma_represent_reduced};
use crate::value::Unit;

verus! {

#[derive(Clone, Copy, Debug, PartialEq, Eq, Structural)]
pub enum TimeUnit {
    Days,
    Hours,
    Minutes,
    Seconds,
    Milliseconds,
}

impl Unit for TimeUnit {
    open spec fn spec_ratio(&self) -> (int, int) {
        match self {
            TimeUnit::Milliseconds => (1, 1000),
            TimeUnit::Seconds => (1, 1),
            TimeUnit::Minutes => (60, 1),
            TimeUnit::Hours => (3600, 1),
            TimeUnit::Days => (86400, 1),
        }
    }

    open spec fn spec_abbr(&self) -> Seq<char> {
        match self {
            TimeUnit::Milliseconds => seq!['m', 's'],
            TimeUnit::Seconds => seq!['s'],
            TimeUnit::Minutes => seq!['m', 'i', 'n'],
            TimeUnit::Hours => seq!['h'],
            TimeUnit::Days => seq!['d'],
        }
    }

    open spec fn spec_base() -> TimeUnit {
        TimeUnit::Seconds
    }

    proof fn lemma_unit_table(u: TimeUnit) {
        lemma_gcd_one(1000);
        lemma_gcd_one(1);
        lemma_gcd_one(60);
        lemma_gcd_one(3600);
        lemma_gcd_one(86400);
    }

    fn ratio(&self) -> (r: Magnitude) {
        proof {
            lemma_gcd_one(1000);
            lemma_represent_reduced((1, 1000));
        }
        match self {
            TimeUnit::Milliseconds => Magnitude::fraction(1, 1000),
            TimeUnit::Seconds => Magnitude::from_int(1),
            TimeUnit::Minutes => Magnitude::from_int(60),
            TimeUnit::Hours => Magnitude::from_int(3600),
            TimeUnit::Days => Magnitude::from_int(86400),
        }
    }

    fn abbr(&self) -> (r: String) {
        proof {
            reveal_strlit("ms");
            reveal_strlit("s");
            reveal_strlit("min");
            reveal_strlit("h");
            reveal_strlit("d");
        }
        match self {
            TimeUnit::Milliseconds => String::from_str("ms"),
            TimeUnit::Seconds => String::from_str("s"),
            TimeUnit::Minutes => String::from_str("min"),
            TimeUnit::Hours => String::from_str("h"),
            TimeUnit::Days => String::from_str("d"),
        }
    }

    fn base() -> (r: TimeUnit) {
        TimeUnit::Seconds
    }

    fn same(&self, other: &TimeUnit) -> (r: bool) {
        *self == *other
    }
}

} // verus!
