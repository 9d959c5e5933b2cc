//! What the shop sells to feed to a friend.

use crate::dice::Dice;
use crate::order::Ranked;
use vstd::prelude::*;

verus! {

/// How many foods there are.
pub const FOOD_COUNT: usize = 2;

/// A food on offer.
#[derive(Clone, Copy, Debug, PartialEq, Eq, Hash, Structural)]
pub enum Food {
    /// Gives its eater one attack and one health.
    Apple,
    /// Marks its eater with honey.
    Honey,
}

impl Food {
    /// The food with number `i`; numbers past the last name the last.
    pub open spec fn nth(i: nat) -> Food {
        if i == 0 {
            Food::Apple
        } else {
            Food::Honey
        }
    }

    /// The number of this food, the inverse of `nth`.
    pub open spec fn code(self) -> nat {
        match self {
            Food::Apple => 0,
            Food::Honey => 1,
        }
    }

    /// The food that the dice `d` names, and the dice after the roll.
    pub open spec fn drawn<R: Dice>(d: R) -> (Food, R) {
        (Food::nth(d.face(FOOD_COUNT as nat)), d.spent(FOOD_COUNT as nat))
    }

    /// The number of this food.
    pub fn index(self) -> (i: usize)
        ensures
            i == self.code(),
    {
        match self {
            Food::Apple => 0,
            Food::Honey => 1,
        }
    }

    /// Rolls for a food, each number of the roll naming one food.
    pub fn sample<R: Dice>(rng: &mut R) -> (f: Food)
        ensures
            (f, *final(rng)) == Food::drawn(*old(rng)),
    {
        let i: usize = rng.roll(FOOD_COUNT);
        if i == 0 {
            Food::Apple
        } else {
            Food::Honey
        }
    }
}

impl Ranked for Food {
    open spec fn precedes(&self, other: &Food) -> bool {
        self.code() <= other.code()
    }

    proof fn lemma_total(&self, other: &Food) {
    }

    proof fn lemma_chain(&self, mid: &Food, other: &Food) {
    }

    proof fn lemma_tie(&self, other: &Food) {
    }

    fn comes_first(&self, other: &Food) -> (r: bool) {
        self.index() <= other.index()
    }
}

} // verus!
