//! The kinds of friends and their printed strengths.

use crate::dice::Dice;
use vstd::prelude::*;

verus! {

/// How many species there are.
pub const SPECIES_COUNT: usize = 9;

/// The largest health or attack that any species starts with.
pub const BASE_STAT_MAX: usize = 3;

/// The kind of a friend. It decides the friend's starting strength and what
/// happens when the friend is bought or sold.
#[derive(Clone, Copy, Debug, PartialEq, Eq, Hash, Structural)]
pub enum Species {
    Ant,
    Beaver,
    Cricket,
    Duck,
    Fish,
    Horse,
    Mosquito,
    Otter,
    Pig,
}

impl Species {
    /// The species with number `i`; numbers past the last name the last.
    pub open spec fn nth(i: nat) -> Species {
        if i == 0 {
            Species::Ant
        } else if i == 1 {
            Species::Beaver
        } else if i == 2 {
            Species::Cricket
        } else if i == 3 {
            Species::Duck
        } else if i == 4 {
            Species::Fish
        } else if i == 5 {
            Species::Horse
        } else if i == 6 {
            Species::Mosquito
        } else if i == 7 {
            Species::Otter
        } else {
            Species::Pig
        }
    }

    /// The number of this species, the inverse of `nth`.
    pub open spec fn code(self) -> nat {
        match self {
            Species::Ant => 0,
            Species::Beaver => 1,
            Species::Cricket => 2,
            Species::Duck => 3,
            Species::Fish => 4,
            Species::Horse => 5,
            Species::Mosquito => 6,
            Species::Otter => 7,
            Species::Pig => 8,
        }
    }

    /// Health of a fresh friend of this species.
    pub open spec fn base_health(self) -> nat {
        match self {
            Species::Ant => 1,
            Species::Beaver => 2,
            Species::Cricket => 2,
            Species::Duck => 3,
            Species::Fish => 3,
            Species::Horse => 1,
            Species::Mosquito => 2,
            Species::Otter => 2,
            Species::Pig => 1,
        }
    }

    /// Attack of a fresh friend of this species.
    pub open spec fn base_attack(self) -> nat {
        match self {
            Species::Ant => 2,
            Species::Beaver => 2,
            Species::Cricket => 1,
            Species::Duck => 1,
            Species::Fish => 2,
            Species::Horse => 2,
            Species::Mosquito => 2,
            Species::Otter => 1,
            Species::Pig => 3,
        }
    }

    /// The species that the dice `d` names, and the dice after the roll.
    pub open spec fn drawn<R: Dice>(d: R) -> (Species, R) {
        (Species::nth(d.face(SPECIES_COUNT as nat)), d.spent(SPECIES_COUNT as nat))
    }

    /// The species with number `i`.
    pub fn from_index(i: usize) -> (s: Species)
        requires
            i < SPECIES_COUNT,
        ensures
            s == Species::nth(i as nat),
            s.code() == i,
    {
        if i == 0 {
            Species::Ant
        } else if i == 1 {
            Species::Beaver
        } else if i == 2 {
            Species::Cricket
        } else if i == 3 {
            Species::Duck
        } else if i == 4 {
            Species::Fish
        } else if i == 5 {
            Species::Horse
        } else if i == 6 {
            Species::Mosquito
        } else if i == 7 {
            Species::Otter
        } else {
            Species::Pig
        }
    }

    /// The number of this species.
    pub fn index(self) -> (i: usize)
        ensures
            i == self.code(),
            i < SPECIES_COUNT,
    {
        match self {
            Species::Ant => 0,
            Species::Beaver => 1,
            Species::Cricket => 2,
            Species::Duck => 3,
            Species::Fish => 4,
            Species::Horse => 5,
            Species::Mosquito => 6,
            Species::Otter => 7,
            Species::Pig => 8,
        }
    }

    /// Health of a fresh friend of this species.
    pub fn starting_health(self) -> (h: usize)
        ensures
            h == self.base_health(),
            1 <= h <= BASE_STAT_MAX,
    {
        match self {
            Species::Ant => 1,
            Species::Beaver => 2,
            Species::Cricket => 2,
            Species::Duck => 3,
            Species::Fish => 3,
            Species::Horse => 1,
            Species::Mosquito => 2,
            Species::Otter => 2,
            Species::Pig => 1,
        }
    }

    /// Attack of a fresh friend of this species.
    pub fn starting_attack(self) -> (a: usize)
        ensures
            a == self.base_attack(),
            1 <= a <= BASE_STAT_MAX,
    {
        match self {
            Species::Ant => 2,
            Species::Beaver => 2,
            Species::Cricket => 1,
            Species::Duck => 1,
            Species::Fish => 2,
            Species::Horse => 2,
            Species::Mosquito => 2,
            Species::Otter => 1,
            Species::Pig => 3,
        }
    }

    /// Rolls for a species, each number of the roll naming one species.
    pub fn sample<R: Dice>(rng: &mut R) -> (s: Species)
        ensures
            (s, *final(rng)) == Species::drawn(*old(rng)),
    {
        let i: usize = rng.roll(SPECIES_COUNT);
        Species::from_index(i)
    }
}

} // verus!
