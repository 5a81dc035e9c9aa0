//! The animal record, with its equality and its ordering by strength.

use core::cmp::Ordering;
use vstd::prelude::*;
use vstd::std_specs::cmp::{PartialEqSpecImpl, PartialOrdSpecImpl};

verus! {

/// One animal of the zoo.
///
/// `species` decides which animals are caged together, `strength` is the only
/// thing animals are ordered by, and `name` is informational.
#[derive(Debug)]
pub struct Animal {
    pub name: String,
    pub species: String,
    pub strength: usize,
    pub carnivore: bool,
}

/// How two strengths compare.
pub open spec fn strength_order(a: usize, b: usize) -> Ordering {
    if a < b {
        Ordering::Less
    } else if a > b {
        Ordering::Greater
    } else {
        Ordering::Equal
    }
}

impl Animal {
    /// Orders two animals by strength alone; every other field is ignored, so
    /// animals of equal strength compare as `Equal`.
    pub fn cmp(&self, other: &Animal) -> (r: Ordering)
        ensures
            r == strength_order(self.strength, other.strength),
    {
        if self.strength < other.strength {
            Ordering::Less
        } else if self.strength > other.strength {
            Ordering::Greater
        } else {
            Ordering::Equal
        }
    }
}

impl Clone for Animal {
    fn clone(&self) -> (r: Self)
        ensures
            r == *self,
    {
        Animal {
            name: self.name.clone(),
            species: self.species.clone(),
            strength: self.strength,
            carnivore: self.carnivore,
        }
    }
}

/// Animals are individuals: no animal is equal to another, whatever its
/// fields hold.
impl PartialEq for Animal {
    fn eq(&self, other: &Self) -> (r: bool) {
        false
    }
}

impl PartialEqSpecImpl for Animal {
    open spec fn obeys_eq_spec() -> bool {
        true
    }

    open spec fn eq_spec(&self, other: &Self) -> bool {
        false
    }
}

impl Eq for Animal {}

impl PartialOrd for Animal {
    fn partial_cmp(&self, other: &Self) -> (r: Option<Ordering>) {
        Some(self.cmp(other))
    }
}

impl PartialOrdSpecImpl for Animal {
    open spec fn obeys_partial_cmp_spec() -> bool {
        true
    }

    open spec fn partial_cmp_spec(&self, other: &Self) -> Option<Ordering> {
        Some(strength_order(self.strength, other.strength))
    }
}

} // verus!
