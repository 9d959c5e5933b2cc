//! Sizes and prices of the round.

use vstd::prelude::*;

verus! {

/// Number of slots in a team.
pub const TEAM_SIZE: usize = 5;

/// Gold a shop opens with.
pub const DEFAULT_GOLD: usize = 10;

/// Number of friends on offer.
pub const SHOP_ANIMAL_COUNT: usize = 3;

/// Number of foods on offer.
pub const SHOP_FOOD_COUNT: usize = 2;

/// Price of a friend or of a food.
pub const PRICE: usize = 3;

/// Price of a reroll.
pub const REROLL_PRICE: usize = 1;

/// The most that the gold or any counter of a friend grows in one step.
pub const STEP_GROWTH: usize = 6;

} // verus!
