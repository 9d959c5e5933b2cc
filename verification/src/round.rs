//! A round as a run of steps, and what holds of the shop all along it.

use crate::bounds::{lemma_row_bound_grows, lemma_step_bound};
use crate::dice::{
    draw_distinct, draw_marked, draw_pair, lemma_draw_marked, lemma_draw_pair,
    lemma_occupied_within, occupancy, occupied, Dice,
};
use crate::order::lemma_sorted_slots;
use crate::params::{PRICE, SHOP_ANIMAL_COUNT, SHOP_FOOD_COUNT, STEP_GROWTH, TEAM_SIZE};
use crate::shop::{
    fresh_foods, fresh_friends, lemma_fresh_foods, lemma_fresh_friends, ShopAction, ShopView,
};
use crate::team::{
    lemma_buff_all_sorted, lemma_buff_each, lemma_with_room_at, offer_table, team_table,
};
use vstd::prelude::*;

verus! {

/// The shop and the dice after `n` steps, whether or not one of them ended
/// the round: a step that ends the round leaves the shop as it is.
pub open spec fn after_steps<R: Dice>(v: ShopView, d: R, n: nat) -> (ShopView, R)
    decreases n,
{
    if n == 0 {
        (v, d)
    } else {
        let (mid, d1) = after_steps(v, d, (n - 1) as nat);
        let (_, next, d2) = mid.after_step(d1);
        (next, d2)
    }
}

/// Whatever the action and the dice, a shop with headroom keeps its shape:
/// the rows keep their sizes and the offers stay in the canonical order.
pub proof fn lemma_action_keeps_shape<R: Dice>(v: ShopView, action: ShopAction, d: R)
    requires
        v.wf(),
        v.has_headroom(),
    ensures
        v.after_action(action, d).1.wf(),
        v.after_action(action, d).0 ==> v.after_action(action, d).1 == v,
{
    match action {
        ShopAction::BuyFriend => {
            if v.gold >= PRICE {
                lemma_draw_marked(occupancy(v.friends), d);
                match draw_marked(occupancy(v.friends), d) {
                    (None, _) => {},
                    (Some(i), d1) => {
                        d1.lemma_face_below(TEAM_SIZE as nat);
                        let j = d1.face(TEAM_SIZE as nat) as int;
                        let d2 = d1.spent(TEAM_SIZE as nat);
                        lemma_with_room_at(v.team, j);
                        let roomy = crate::team::with_room_at(v.team, j);
                        lemma_sorted_slots(v.friends.update(i as int, None));
                        lemma_buff_each(roomy, draw_distinct(occupancy(roomy), 1, d2).0, 1, 1);
                    },
                }
            }
        },
        ShopAction::BuyCombineFriend => {
            if v.gold >= PRICE {
                let rows = offer_table(v.friends, v.team);
                lemma_draw_pair(rows, d);
                match draw_pair(rows, d) {
                    (None, _) => {},
                    (Some((i, j)), d1) => {
                        lemma_sorted_slots(v.friends.update(i as int, None));
                        let survivor = v.team[j as int]->0.merged(v.friends[i as int]->0);
                        let detached = v.team.update(j as int, Some(survivor)).update(
                            j as int,
                            None,
                        );
                        lemma_buff_each(
                            detached,
                            draw_distinct(occupancy(detached), 1, d1).0,
                            1,
                            1,
                        );
                    },
                }
            }
        },
        ShopAction::SellFriend => {
            lemma_draw_marked(occupancy(v.team), d);
            match draw_marked(occupancy(v.team), d) {
                (None, _) => {},
                (Some(j), d1) => {
                    let a = v.team[j as int]->0;
                    let parted = v.team.update(j as int, None);
                    lemma_buff_each(
                        parted,
                        draw_distinct(occupancy(parted), 2, d1).0,
                        a.level_of(),
                        0,
                    );
                    lemma_buff_all_sorted(v.friends, a.level_of());
                },
            }
        },
        ShopAction::BuyFood => {
            if v.gold >= PRICE {
                lemma_draw_marked(occupancy(v.foods), d);
                match draw_marked(occupancy(v.foods), d) {
                    (None, _) => {},
                    (Some(i), d1) => {
                        lemma_draw_marked(occupancy(v.team), d1);
                        lemma_sorted_slots(v.foods.update(i as int, None));
                    },
                }
            }
        },
        ShopAction::CombineFriends => {
            lemma_draw_pair(team_table(v.team), d);
        },
        ShopAction::Reroll => {
            lemma_fresh_friends(v.friends.len(), d);
            let d1 = fresh_friends(v.friends.len(), d).1;
            lemma_fresh_foods(v.foods.len(), d1);
            lemma_sorted_slots(fresh_friends(v.friends.len(), d).0);
            lemma_sorted_slots(fresh_foods(v.foods.len(), d1).0);
        },
    }
}

/// Along any run of steps that starts with room for it, the shop keeps its
/// shape: the team never holds more friends than it has slots, the rows of
/// offers never more offers than they have slots, both rows of offers
/// stand in the canonical order after every step, and neither the gold nor
/// a counter of a friend grows by more than `STEP_GROWTH` a step.
pub proof fn lemma_round_keeps_shape<R: Dice>(v: ShopView, d: R, n: nat, cap: int)
    requires
        v.wf(),
        v.bounded_by(cap),
        cap + n * STEP_GROWTH <= usize::MAX,
    ensures
        after_steps(v, d, n).0.wf(),
        after_steps(v, d, n).0.bounded_by(cap + n * STEP_GROWTH),
        after_steps(v, d, n).0.gold >= 0,
        occupied(after_steps(v, d, n).0.team) <= TEAM_SIZE,
        occupied(after_steps(v, d, n).0.friends) <= SHOP_ANIMAL_COUNT,
        occupied(after_steps(v, d, n).0.foods) <= SHOP_FOOD_COUNT,
    decreases n,
{
    if n > 0 {
        let (mid, d1) = after_steps(v, d, (n - 1) as nat);
        let reach = cap + (n - 1) * STEP_GROWTH;
        lemma_round_keeps_shape(v, d, (n - 1) as nat, cap);
        lemma_row_bound_grows(mid.team, reach, usize::MAX - STEP_GROWTH);
        lemma_row_bound_grows(mid.friends, reach, usize::MAX - STEP_GROWTH);
        let (action, d2) = ShopAction::drawn(d1);
        lemma_action_keeps_shape(mid, action, d2);
        lemma_step_bound(mid, d1, reach);
    }
    let last = after_steps(v, d, n).0;
    lemma_occupied_within(last.team);
    lemma_occupied_within(last.friends);
    lemma_occupied_within(last.foods);
}

/// Two runs from the same shop with the same dice are the same run: what a
/// round does is a function of the shop and the dice it starts with.
pub proof fn lemma_round_repeats<R: Dice>(a: ShopView, b: ShopView, d: R, e: R, n: nat)
    requires
        a == b,
        d == e,
    ensures
        after_steps(a, d, n) == after_steps(b, e, n),
        a.after_step(d) == b.after_step(e),
{
}

} // verus!
