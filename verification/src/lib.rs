//! One round of an auto-battler shop phase, driven by dice instead of a player.
//!
//! A [`Shop`] owns a team, a purse of gold and the offers on display. Each
//! call of [`Shop::step`] rolls for one action (buy, buy and combine, sell,
//! feed, combine, reroll), carries it out if it is legal and reports whether
//! the round is over. Every random choice is drawn from a [`Dice`], and the
//! contracts state the shop after a step as a function of the shop and the
//! dice before it.
//!
//! The modules, from the leaves up: `params` (sizes and prices), `dice`
//! (the source of rolls and uniform picks), `species`, `modifier`, `food`
//! and `friend` (the plain data), `order` (the canonical order of offers),
//! `team` (the roster), `shop` (the actions and the step), `bounds` and
//! `round` (what holds of a shop over many steps).

pub mod bounds;
pub mod dice;
pub mod food;
pub mod friend;
pub mod modifier;
pub mod order;
pub mod params;
pub mod round;
pub mod shop;
pub mod species;
pub mod team;

pub use dice::{pick_marked, pick_one, pick_pair, Dice, Tape};
pub use food::Food;
pub use friend::Friend;
pub use modifier::Modifier;
pub use order::sort_slots;
pub use params::{DEFAULT_GOLD, PRICE, SHOP_ANIMAL_COUNT, SHOP_FOOD_COUNT, TEAM_SIZE};
pub use shop::{Shop, ShopAction, ShopView};
pub use species::Species;
pub use team::Team;
