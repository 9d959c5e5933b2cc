//! A member of a team or an offer of the shop.

use crate::food::Food;
use crate::modifier::Modifier;
use crate::order::Ranked;
use crate::species::Species;
use vstd::prelude::*;

verus! {

/// The highest level a friend reaches.
pub const MAX_LEVEL: usize = 3;

/// A friend: plain data, copied from slot to slot.
#[derive(Clone, Copy, Debug, PartialEq, Eq, Hash)]
pub struct Friend {
    pub species: Species,
    pub health: usize,
    pub attack: usize,
    pub exp: usize,
    pub modifier: Option<Modifier>,
}

impl Friend {
    /// A friend of `species` as the shop first offers it.
    pub open spec fn fresh(species: Species) -> Friend {
        Friend {
            species,
            health: species.base_health() as usize,
            attack: species.base_attack() as usize,
            exp: 0,
            modifier: None,
        }
    }

    /// The level that the experience counter stands for: 1 below two
    /// points, 2 below five, 3 from there on.
    pub open spec fn level_of(self) -> nat {
        if self.exp < 2 {
            1
        } else if self.exp < 5 {
            2
        } else {
            3
        }
    }

    /// Whether health and attack are those the species starts with.
    pub open spec fn is_baseline(self) -> bool {
        self.health == self.species.base_health() && self.attack == self.species.base_attack()
    }

    /// This friend with `dh` more health and `da` more attack.
    pub open spec fn buffed(self, dh: nat, da: nat) -> Friend {
        Friend {
            health: (self.health + dh) as usize,
            attack: (self.attack + da) as usize,
            ..self
        }
    }

    /// This friend after it took `other` in: one more than the larger
    /// health, one more than the larger attack, one more point of
    /// experience. Species and modifier stay its own.
    pub open spec fn merged(self, other: Friend) -> Friend {
        Friend {
            health: (if self.health >= other.health { self.health } else { other.health } + 1) as usize,
            attack: (if self.attack >= other.attack { self.attack } else { other.attack } + 1) as usize,
            exp: (self.exp + 1) as usize,
            ..self
        }
    }

    /// This friend after eating `food`.
    pub open spec fn fed(self, food: Food) -> Friend {
        match food {
            Food::Apple => self.buffed(1, 1),
            Food::Honey => Friend { modifier: Some(Modifier::Honey), ..self },
        }
    }

    /// Whether health, attack and experience are all at most `cap`.
    pub open spec fn bounded_by(self, cap: int) -> bool {
        self.health <= cap && self.attack <= cap && self.exp <= cap
    }

    /// A friend of `species` as the shop first offers it.
    pub fn new(species: Species) -> (f: Friend)
        ensures
            f == Friend::fresh(species),
            f.is_baseline(),
    {
        Friend {
            species,
            health: species.starting_health(),
            attack: species.starting_attack(),
            exp: 0,
            modifier: None,
        }
    }

    /// The level of this friend, from 1 to `MAX_LEVEL`.
    pub fn level(&self) -> (l: usize)
        ensures
            l == self.level_of(),
            1 <= l <= MAX_LEVEL,
    {
        if self.exp < 2 {
            1
        } else if self.exp < 5 {
            2
        } else {
            3
        }
    }

    /// Whether health and attack are those the species starts with.
    pub fn has_base_stats(&self) -> (b: bool)
        ensures
            b == self.is_baseline(),
    {
        self.health == self.species.starting_health() && self.attack
            == self.species.starting_attack()
    }

    /// This friend with `dh` more health and `da` more attack.
    pub fn buff(self, dh: usize, da: usize) -> (f: Friend)
        requires
            self.health + dh <= usize::MAX,
            self.attack + da <= usize::MAX,
        ensures
            f == self.buffed(dh as nat, da as nat),
            f.health == self.health + dh,
            f.attack == self.attack + da,
    {
        Friend {
            species: self.species,
            health: self.health + dh,
            attack: self.attack + da,
            exp: self.exp,
            modifier: self.modifier,
        }
    }

    /// Takes `other` in. Crossing a level threshold triggers nothing here:
    /// the level follows from the experience, and no level-up effect exists.
    pub fn absorb(self, other: Friend) -> (f: Friend)
        requires
            self.species == other.species,
            self.health < usize::MAX,
            other.health < usize::MAX,
            self.attack < usize::MAX,
            other.attack < usize::MAX,
            self.exp < usize::MAX,
        ensures
            f == self.merged(other),
            f.health == vstd::math::max(self.health as int, other.health as int) + 1,
            f.attack == vstd::math::max(self.attack as int, other.attack as int) + 1,
            f.exp == self.exp + 1,
            f.species == self.species,
            f.modifier == self.modifier,
    {
        let health: usize = if self.health >= other.health {
            self.health
        } else {
            other.health
        };
        let attack: usize = if self.attack >= other.attack {
            self.attack
        } else {
            other.attack
        };
        Friend {
            species: self.species,
            health: health + 1,
            attack: attack + 1,
            exp: self.exp + 1,
            modifier: self.modifier,
        }
    }

    /// Eats `food`.
    pub fn feed(self, food: Food) -> (f: Friend)
        requires
            self.health < usize::MAX,
            self.attack < usize::MAX,
        ensures
            f == self.fed(food),
    {
        match food {
            Food::Apple => self.buff(1, 1),
            Food::Honey => Friend {
                species: self.species,
                health: self.health,
                attack: self.attack,
                exp: self.exp,
                modifier: Some(Modifier::Honey),
            },
        }
    }
}

impl Ranked for Friend {
    /// By species, then health, then attack, then experience, then modifier.
    open spec fn precedes(&self, other: &Friend) -> bool {
        let (s, t) = (self.species.code(), other.species.code());
        let (m, n) = (Modifier::code(self.modifier), Modifier::code(other.modifier));
        s < t || (s == t && (self.health < other.health || (self.health == other.health && (
        self.attack < other.attack || (self.attack == other.attack && (self.exp < other.exp || (
        self.exp == other.exp && m <= n)))))))
    }

    proof fn lemma_total(&self, other: &Friend) {
    }

    proof fn lemma_chain(&self, mid: &Friend, other: &Friend) {
    }

    proof fn lemma_tie(&self, other: &Friend) {
        assert(self.species.code() == other.species.code());
        assert(self.species == other.species);
        assert(Modifier::code(self.modifier) == Modifier::code(other.modifier));
        assert(self.modifier == other.modifier);
    }

    fn comes_first(&self, other: &Friend) -> (r: bool) {
        let s: usize = self.species.index();
        let t: usize = other.species.index();
        if s != t {
            return s < t;
        }
        if self.health != other.health {
            return self.health < other.health;
        }
        if self.attack != other.attack {
            return self.attack < other.attack;
        }
        if self.exp != other.exp {
            return self.exp < other.exp;
        }
        Modifier::index(&self.modifier) <= Modifier::index(&other.modifier)
    }
}

} // verus!
