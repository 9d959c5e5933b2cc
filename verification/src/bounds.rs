//! How far one step can raise the gold and the counters of the friends.
//!
//! Every action needs room in the machine's integers for what it adds. The
//! lemmas here show that a step adds at most `STEP_GROWTH` to the largest
//! of the gold and the counters, so a caller that knows a bound before a
//! step knows one after it, and can tell how many steps are safe.

use crate::dice::{draw_distinct, lemma_draw_distinct, occupancy, Dice};
use crate::friend::{Friend, MAX_LEVEL};
use crate::order::sorted_slots;
use crate::params::{PRICE, STEP_GROWTH, TEAM_SIZE};
use crate::shop::{lemma_fresh_friends, ShopAction, ShopView};
use crate::team::{
    buff_all, buff_each, lemma_sorted_row_bounded, lemma_with_room_at, row_bounded_by,
};
use vstd::prelude::*;

verus! {

/// A bound on a row holds all the more with a larger cap.
pub proof fn lemma_row_bound_grows(s: Seq<Option<Friend>>, cap: int, more: int)
    requires
        row_bounded_by(s, cap),
        cap <= more,
    ensures
        row_bounded_by(s, more),
{
}

/// Buffing each of `targets` by at most `MAX_LEVEL` raises no counter by
/// more than `MAX_LEVEL` for each target.
pub proof fn lemma_buff_each_bound(
    s: Seq<Option<Friend>>,
    targets: Seq<usize>,
    dh: nat,
    da: nat,
    cap: int,
)
    requires
        dh <= MAX_LEVEL,
        da <= MAX_LEVEL,
        row_bounded_by(s, cap),
        cap + MAX_LEVEL * targets.len() <= usize::MAX,
    ensures
        buff_each(s, targets, dh, da).len() == s.len(),
        row_bounded_by(buff_each(s, targets, dh, da), cap + MAX_LEVEL * targets.len()),
    decreases targets.len(),
{
    if targets.len() > 0 {
        let front = targets.drop_last();
        lemma_buff_each_bound(s, front, dh, da, cap);
        let mid = buff_each(s, front, dh, da);
        let r = buff_each(s, targets, dh, da);
        let top = cap + MAX_LEVEL * targets.len();
        assert forall|i: int| 0 <= i < r.len() && (#[trigger] r[i]) is Some implies r[i]->0.bounded_by(
            top,
        ) by {
            assert(mid[i] is Some);
            assert(mid[i]->0.bounded_by(cap + MAX_LEVEL * front.len()));
        }
    }
}

/// Giving every friend of a row at most `MAX_LEVEL` health raises no
/// counter by more than that.
pub proof fn lemma_buff_all_bound(s: Seq<Option<Friend>>, dh: nat, cap: int)
    requires
        dh <= MAX_LEVEL,
        row_bounded_by(s, cap),
        cap + MAX_LEVEL <= usize::MAX,
    ensures
        row_bounded_by(buff_all(s, dh), cap + MAX_LEVEL),
{
    let r = buff_all(s, dh);
    assert forall|i: int| 0 <= i < r.len() && (#[trigger] r[i]) is Some implies r[i]->0.bounded_by(
        cap + MAX_LEVEL,
    ) by {
        assert(s[i] is Some);
    }
}

/// A buyer's say raises no counter by more than `MAX_LEVEL`.
pub proof fn lemma_on_buy_bound<R: Dice>(v: ShopView, f: Friend, d: R, cap: int)
    requires
        v.team.len() == TEAM_SIZE,
        v.bounded_by(cap),
        cap + MAX_LEVEL <= usize::MAX,
    ensures
        v.after_on_buy(f, d).0.bounded_by(cap + MAX_LEVEL),
        v.after_on_buy(f, d).0.team.len() == TEAM_SIZE,
{
    let targets = draw_distinct(occupancy(v.team), 1, d).0;
    lemma_draw_distinct(occupancy(v.team), 1, d);
    lemma_buff_each_bound(v.team, targets, 1, 1, cap);
    lemma_row_bound_grows(v.team, cap, cap + MAX_LEVEL);
    lemma_row_bound_grows(v.friends, cap, cap + MAX_LEVEL);
    lemma_row_bound_grows(
        buff_each(v.team, targets, 1, 1),
        cap + MAX_LEVEL * targets.len(),
        cap + MAX_LEVEL,
    );
}

/// A seller's say raises no counter by more than twice `MAX_LEVEL`, and
/// the gold by no more than `MAX_LEVEL`.
pub proof fn lemma_on_sell_bound<R: Dice>(v: ShopView, a: Friend, d: R, cap: int, purse: int)
    requires
        v.team.len() == TEAM_SIZE,
        v.gold <= purse,
        row_bounded_by(v.team, cap),
        row_bounded_by(v.friends, cap),
        cap + 2 * MAX_LEVEL <= usize::MAX,
    ensures
        v.after_on_sell(a, d).0.gold <= purse + MAX_LEVEL,
        row_bounded_by(v.after_on_sell(a, d).0.team, cap + 2 * MAX_LEVEL),
        row_bounded_by(v.after_on_sell(a, d).0.friends, cap + 2 * MAX_LEVEL),
{
    let delta = a.level_of();
    let targets = draw_distinct(occupancy(v.team), 2, d).0;
    lemma_draw_distinct(occupancy(v.team), 2, d);
    lemma_buff_each_bound(v.team, targets, delta, 0, cap);
    lemma_buff_all_bound(v.friends, delta, cap);
    lemma_row_bound_grows(v.team, cap, cap + 2 * MAX_LEVEL);
    lemma_row_bound_grows(v.friends, cap, cap + 2 * MAX_LEVEL);
    lemma_row_bound_grows(
        buff_each(v.team, targets, delta, 0),
        cap + MAX_LEVEL * targets.len(),
        cap + 2 * MAX_LEVEL,
    );
    lemma_row_bound_grows(buff_all(v.friends, delta), cap + MAX_LEVEL, cap + 2 * MAX_LEVEL);
}

/// A row with one slot emptied, sorted, keeps its bound.
pub proof fn lemma_removal_bound(s: Seq<Option<Friend>>, i: int, cap: int)
    requires
        0 <= i < s.len(),
        row_bounded_by(s, cap),
    ensures
        row_bounded_by(sorted_slots(s.update(i, None)), cap),
{
    let u = s.update(i, None);
    assert forall|k: int| 0 <= k < u.len() && (#[trigger] u[k]) is Some implies u[k]->0.bounded_by(
        cap,
    ) by {
        assert(s[k] is Some);
    }
    lemma_sorted_row_bounded(u, cap);
}

/// Whatever the action and the dice, a step raises neither the gold nor a
/// counter of a friend by more than `STEP_GROWTH`.
pub proof fn lemma_action_bound<R: Dice>(v: ShopView, action: ShopAction, d: R, cap: int)
    requires
        v.wf(),
        v.bounded_by(cap),
        cap + STEP_GROWTH <= usize::MAX,
    ensures
        v.after_action(action, d).1.bounded_by(cap + STEP_GROWTH),
{
    let top = cap + STEP_GROWTH;
    lemma_row_bound_grows(v.team, cap, top);
    lemma_row_bound_grows(v.friends, cap, top);
    match action {
        ShopAction::BuyFriend => lemma_buy_friend_bound(v, d, cap),
        ShopAction::BuyCombineFriend => lemma_buy_combine_bound(v, d, cap),
        ShopAction::SellFriend => lemma_sell_bound(v, d, cap),
        ShopAction::BuyFood => lemma_buy_food_bound(v, d, cap),
        ShopAction::CombineFriends => lemma_combine_bound(v, d, cap),
        ShopAction::Reroll => lemma_reroll_bound(v, d, cap),
    }
}

/// Whatever the dice, a step raises neither the gold nor a counter of a
/// friend by more than `STEP_GROWTH`.
pub proof fn lemma_step_bound<R: Dice>(v: ShopView, d: R, cap: int)
    requires
        v.wf(),
        v.bounded_by(cap),
        cap + STEP_GROWTH <= usize::MAX,
    ensures
        v.after_step(d).1.bounded_by(cap + STEP_GROWTH),
{
    let (action, d1) = ShopAction::drawn(d);
    lemma_action_bound(v, action, d1, cap);
}

proof fn lemma_buy_friend_bound<R: Dice>(v: ShopView, d: R, cap: int)
    requires
        v.wf(),
        v.bounded_by(cap),
        cap + STEP_GROWTH <= usize::MAX,
    ensures
        v.buy_friend_turn(d).1.bounded_by(cap + STEP_GROWTH),
{
    let top = cap + STEP_GROWTH;
    lemma_row_bound_grows(v.team, cap, top);
    lemma_row_bound_grows(v.friends, cap, top);
    if v.gold >= PRICE {
        crate::dice::lemma_draw_marked(occupancy(v.friends), d);
        match crate::dice::draw_marked(occupancy(v.friends), d) {
            (None, _) => {},
            (Some(i), d1) => {
                d1.lemma_face_below(TEAM_SIZE as nat);
                let j = d1.face(TEAM_SIZE as nat) as int;
                let d2 = d1.spent(TEAM_SIZE as nat);
                lemma_with_room_at(v.team, j);
                if crate::team::gap_for(v.team, j) is Some {
                    let roomy = ShopView { team: crate::team::with_room_at(v.team, j), ..v };
                    assert(row_bounded_by(roomy.team, cap));
                    let friend = v.friends[i as int]->0;
                    let paid = ShopView {
                        gold: (roomy.gold - PRICE) as nat,
                        friends: sorted_slots(roomy.friends.update(i as int, None)),
                        ..roomy
                    };
                    lemma_removal_bound(v.friends, i as int, cap);
                    lemma_on_buy_bound(paid, friend, d2, cap);
                    let hooked = paid.after_on_buy(friend, d2).0;
                    let next = v.buy_friend_turn(d).1;
                    lemma_row_bound_grows(hooked.team, cap + MAX_LEVEL, top);
                    lemma_row_bound_grows(hooked.friends, cap + MAX_LEVEL, top);
                    assert forall|k: int|
                        0 <= k < next.team.len() && (#[trigger] next.team[k]) is Some implies next.team[k]->0.bounded_by(
                        top,
                    ) by {
                        if k != j {
                            assert(hooked.team[k] is Some);
                        }
                    }
                }
            },
        }
    }
}

proof fn lemma_buy_combine_bound<R: Dice>(v: ShopView, d: R, cap: int)
    requires
        v.wf(),
        v.bounded_by(cap),
        cap + STEP_GROWTH <= usize::MAX,
    ensures
        v.buy_combine_turn(d).1.bounded_by(cap + STEP_GROWTH),
{
    let top = cap + STEP_GROWTH;
    lemma_row_bound_grows(v.team, cap, top);
    lemma_row_bound_grows(v.friends, cap, top);
    if v.gold >= PRICE {
        let rows = crate::team::offer_table(v.friends, v.team);
        crate::dice::lemma_draw_pair(rows, d);
        match crate::dice::draw_pair(rows, d) {
            (None, _) => {},
            (Some((i, j)), d1) => {
                assert(rows[i as int][j as int]);
                lemma_removal_bound(v.friends, i as int, cap);
                let survivor = v.team[j as int]->0.merged(v.friends[i as int]->0);
                let paid = ShopView {
                    gold: (v.gold - PRICE) as nat,
                    friends: sorted_slots(v.friends.update(i as int, None)),
                    ..v
                };
                let merged = paid.after_combine(j as int, v.friends[i as int]->0);
                let detached = ShopView { team: merged.team.update(j as int, None), ..merged };
                assert forall|k: int|
                    0 <= k < detached.team.len() && (#[trigger] detached.team[k]) is Some implies detached.team[k]->0.bounded_by(
                    cap,
                ) by {
                    assert(v.team[k] is Some);
                }
                lemma_on_buy_bound(detached, survivor, d1, cap);
                let hooked = detached.after_on_buy(survivor, d1).0;
                let next = v.buy_combine_turn(d).1;
                lemma_row_bound_grows(hooked.friends, cap + MAX_LEVEL, top);
                assert forall|k: int|
                    0 <= k < next.team.len() && (#[trigger] next.team[k]) is Some implies next.team[k]->0.bounded_by(
                    top,
                ) by {
                    if k != j {
                        assert(hooked.team[k] is Some);
                        assert(hooked.team[k]->0.bounded_by(cap + MAX_LEVEL));
                    }
                }
            },
        }
    }
}

proof fn lemma_sell_bound<R: Dice>(v: ShopView, d: R, cap: int)
    requires
        v.wf(),
        v.bounded_by(cap),
        cap + STEP_GROWTH <= usize::MAX,
    ensures
        v.sell_turn(d).1.bounded_by(cap + STEP_GROWTH),
{
    let top = cap + STEP_GROWTH;
    lemma_row_bound_grows(v.team, cap, top);
    lemma_row_bound_grows(v.friends, cap, top);
    crate::dice::lemma_draw_marked(occupancy(v.team), d);
    match crate::dice::draw_marked(occupancy(v.team), d) {
        (None, _) => {},
        (Some(j), d1) => {
            let a = v.team[j as int]->0;
            let sold = ShopView {
                team: v.team.update(j as int, None),
                gold: v.gold + a.level_of(),
                ..v
            };
            assert forall|k: int|
                0 <= k < sold.team.len() && (#[trigger] sold.team[k]) is Some implies sold.team[k]->0.bounded_by(
                cap,
            ) by {
                assert(v.team[k] is Some);
            }
            lemma_on_sell_bound(sold, a, d1, cap, cap + MAX_LEVEL);
        },
    }
}

proof fn lemma_buy_food_bound<R: Dice>(v: ShopView, d: R, cap: int)
    requires
        v.wf(),
        v.bounded_by(cap),
        cap + STEP_GROWTH <= usize::MAX,
    ensures
        v.buy_food_turn(d).1.bounded_by(cap + STEP_GROWTH),
{
    let top = cap + STEP_GROWTH;
    lemma_row_bound_grows(v.team, cap, top);
    lemma_row_bound_grows(v.friends, cap, top);
    if v.gold >= PRICE {
        crate::dice::lemma_draw_marked(occupancy(v.foods), d);
        match crate::dice::draw_marked(occupancy(v.foods), d) {
            (None, _) => {},
            (Some(i), d1) => {
                crate::dice::lemma_draw_marked(occupancy(v.team), d1);
                match crate::dice::draw_marked(occupancy(v.team), d1) {
                    (None, _) => {},
                    (Some(j), _) => {
                        let next = v.after_buy_food(i as int, j as int);
                        assert forall|k: int|
                            0 <= k < next.team.len() && (#[trigger] next.team[k]) is Some implies next.team[k]->0.bounded_by(
                            top,
                        ) by {
                            assert(v.team[k] is Some);
                        }
                    },
                }
            },
        }
    }
}

proof fn lemma_combine_bound<R: Dice>(v: ShopView, d: R, cap: int)
    requires
        v.wf(),
        v.bounded_by(cap),
        cap + STEP_GROWTH <= usize::MAX,
    ensures
        v.combine_turn(d).1.bounded_by(cap + STEP_GROWTH),
{
    let top = cap + STEP_GROWTH;
    lemma_row_bound_grows(v.team, cap, top);
    lemma_row_bound_grows(v.friends, cap, top);
    let rows = crate::team::team_table(v.team);
    crate::dice::lemma_draw_pair(rows, d);
    match crate::dice::draw_pair(rows, d) {
        (None, _) => {},
        (Some((i, j)), _) => {
            assert(rows[i as int][j as int]);
            let next = v.combine_turn(d).1;
            assert forall|k: int|
                0 <= k < next.team.len() && (#[trigger] next.team[k]) is Some implies next.team[k]->0.bounded_by(
                top,
            ) by {
                assert(v.team[k] is Some);
            }
        },
    }
}

proof fn lemma_reroll_bound<R: Dice>(v: ShopView, d: R, cap: int)
    requires
        v.wf(),
        v.bounded_by(cap),
        cap + STEP_GROWTH <= usize::MAX,
    ensures
        v.reroll_turn(d).1.bounded_by(cap + STEP_GROWTH),
{
    let top = cap + STEP_GROWTH;
    lemma_row_bound_grows(v.team, cap, top);
    lemma_row_bound_grows(v.friends, cap, top);
    if !(v.gold == 0 || v.settled()) {
        let fresh = crate::shop::fresh_friends(v.friends.len(), d).0;
        lemma_fresh_friends(v.friends.len(), d);
        assert(row_bounded_by(fresh, top)) by {
            assert forall|k: int| 0 <= k < fresh.len() && (#[trigger] fresh[k]) is Some implies fresh[k]->0.bounded_by(
                top,
            ) by {
                assert(fresh[k]->0.bounded_by(crate::species::BASE_STAT_MAX as int));
            }
        }
        lemma_sorted_row_bounded(fresh, top);
    }
}

} // verus!
