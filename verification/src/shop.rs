//! The shop: its state, the actions on it, and one random step of a round.

use crate::dice::{
    draw_distinct, draw_marked, draw_pair, occupancy, occupied, pick_one, pick_pair, rows_of, Dice,
};
use crate::food::Food;
use crate::friend::{Friend, MAX_LEVEL};
use crate::order::{is_sorted, lemma_sorted_after_removal, sort_slots, sorted_slots};
use crate::params::{
    DEFAULT_GOLD, PRICE, REROLL_PRICE, SHOP_ANIMAL_COUNT, SHOP_FOOD_COUNT, STEP_GROWTH, TEAM_SIZE,
};
use crate::species::Species;
use crate::team::{
    buff_all, buff_each, gap_for, lemma_buff_all_sorted, lemma_buff_each,
    lemma_sorted_row_bounded, lemma_with_room_at, offer_table, partner_row, row_bounded_by,
    row_within, same_species, team_table, with_room_at, Team,
};
use vstd::prelude::*;

verus! {

/// How many actions there are.
pub const ACTION_COUNT: usize = 6;

/// What a step of the round can try.
#[derive(Clone, Copy, Debug, PartialEq, Eq, Hash, Structural)]
pub enum ShopAction {
    BuyFriend,
    BuyCombineFriend,
    SellFriend,
    BuyFood,
    CombineFriends,
    Reroll,
}

impl ShopAction {
    /// The action with number `i`; numbers past the last name the last.
    pub open spec fn nth(i: nat) -> ShopAction {
        if i == 0 {
            ShopAction::BuyFriend
        } else if i == 1 {
            ShopAction::BuyCombineFriend
        } else if i == 2 {
            ShopAction::SellFriend
        } else if i == 3 {
            ShopAction::BuyFood
        } else if i == 4 {
            ShopAction::CombineFriends
        } else {
            ShopAction::Reroll
        }
    }

    /// What the action costs when it is carried out.
    pub open spec fn price(self) -> nat {
        match self {
            ShopAction::BuyFriend => PRICE as nat,
            ShopAction::BuyCombineFriend => PRICE as nat,
            ShopAction::BuyFood => PRICE as nat,
            ShopAction::Reroll => REROLL_PRICE as nat,
            ShopAction::SellFriend => 0,
            ShopAction::CombineFriends => 0,
        }
    }

    /// The action that the dice `d` names, and the dice after the roll.
    pub open spec fn drawn<R: Dice>(d: R) -> (ShopAction, R) {
        (ShopAction::nth(d.face(ACTION_COUNT as nat)), d.spent(ACTION_COUNT as nat))
    }

    /// Rolls for the action of a step: one roll, each of its six numbers
    /// naming one action.
    pub fn sample<R: Dice>(rng: &mut R) -> (a: ShopAction)
        ensures
            (a, *final(rng)) == ShopAction::drawn(*old(rng)),
    {
        let i: usize = rng.roll(ACTION_COUNT);
        if i == 0 {
            ShopAction::BuyFriend
        } else if i == 1 {
            ShopAction::BuyCombineFriend
        } else if i == 2 {
            ShopAction::SellFriend
        } else if i == 3 {
            ShopAction::BuyFood
        } else if i == 4 {
            ShopAction::CombineFriends
        } else {
            ShopAction::Reroll
        }
    }
}

/// `n` fresh friend offers, each of a species rolled for in turn, and the
/// dice after the rolls.
pub open spec fn fresh_friends<R: Dice>(n: nat, d: R) -> (Seq<Option<Friend>>, R)
    decreases n,
{
    if n == 0 {
        (Seq::empty(), d)
    } else {
        let (row, d1) = fresh_friends((n - 1) as nat, d);
        let (species, d2) = Species::drawn(d1);
        (row.push(Some(Friend::fresh(species))), d2)
    }
}

/// `n` fresh food offers, each rolled for in turn, and the dice after the
/// rolls.
pub open spec fn fresh_foods<R: Dice>(n: nat, d: R) -> (Seq<Option<Food>>, R)
    decreases n,
{
    if n == 0 {
        (Seq::empty(), d)
    } else {
        let (row, d1) = fresh_foods((n - 1) as nat, d);
        let (food, d2) = Food::drawn(d1);
        (row.push(Some(food)), d2)
    }
}

/// The state of a shop as plain mathematics: the team, the gold, and the
/// two rows of offers.
pub struct ShopView {
    pub team: Seq<Option<Friend>>,
    pub gold: nat,
    pub friends: Seq<Option<Friend>>,
    pub foods: Seq<Option<Food>>,
}

impl ShopView {
    /// The shop before its first offers: default gold, nobody in the team,
    /// nothing on offer.
    pub open spec fn opening() -> ShopView {
        ShopView {
            team: Seq::new(TEAM_SIZE as nat, |i: int| None),
            gold: DEFAULT_GOLD as nat,
            friends: Seq::new(SHOP_ANIMAL_COUNT as nat, |i: int| None),
            foods: Seq::new(SHOP_FOOD_COUNT as nat, |i: int| None),
        }
    }

    /// What holds of every shop between two actions: the rows have their
    /// fixed sizes, and both rows of offers stand in the canonical order.
    pub open spec fn wf(self) -> bool {
        &&& self.team.len() == TEAM_SIZE
        &&& self.friends.len() == SHOP_ANIMAL_COUNT
        &&& self.foods.len() == SHOP_FOOD_COUNT
        &&& is_sorted(self.friends)
        &&& is_sorted(self.foods)
    }

    /// Whether the gold and every counter of every friend, in the team or
    /// on offer, is at most `cap`.
    pub open spec fn bounded_by(self, cap: int) -> bool {
        &&& self.gold <= cap
        &&& row_bounded_by(self.team, cap)
        &&& row_bounded_by(self.friends, cap)
    }

    /// Whether the gold and every counter could grow by `STEP_GROWTH`
    /// within the machine's integers. No action adds more than that.
    pub open spec fn has_headroom(self) -> bool {
        self.bounded_by(usize::MAX - STEP_GROWTH)
    }

    /// The shop with every offer replaced by a fresh one (friends first,
    /// then foods, slot by slot) and both rows sorted.
    pub open spec fn rerolled<R: Dice>(self, d: R) -> (ShopView, R) {
        let (friends, d1) = fresh_friends(self.friends.len(), d);
        let (foods, d2) = fresh_foods(self.foods.len(), d1);
        (ShopView { friends: sorted_slots(friends), foods: sorted_slots(foods), ..self }, d2)
    }

    /// The shop after the buyer `f`, not yet in the team, had its say: an
    /// otter gives one health and one attack to one friend of the team that
    /// the dice picks. No other species does anything.
    pub open spec fn after_on_buy<R: Dice>(self, f: Friend, d: R) -> (ShopView, R) {
        if f.species == Species::Otter {
            let (targets, d1) = draw_distinct(occupancy(self.team), 1, d);
            (ShopView { team: buff_each(self.team, targets, 1, 1), ..self }, d1)
        } else {
            (self, d)
        }
    }

    /// The shop after the seller `a`, no longer in the team, had its say: a
    /// beaver gives its level in health to two friends of the team that the
    /// dice picks, a duck gives its level in health to every friend on
    /// offer, a pig gives its level in gold. No other species does
    /// anything.
    pub open spec fn after_on_sell<R: Dice>(self, a: Friend, d: R) -> (ShopView, R) {
        let delta = a.level_of();
        match a.species {
            Species::Beaver => {
                let (targets, d1) = draw_distinct(occupancy(self.team), 2, d);
                (ShopView { team: buff_each(self.team, targets, delta, 0), ..self }, d1)
            },
            Species::Duck => (ShopView { friends: buff_all(self.friends, delta), ..self }, d),
            Species::Pig => (ShopView { gold: self.gold + delta, ..self }, d),
            _ => (self, d),
        }
    }

    /// The shop after the friend on offer at `shop_pos` was bought into the
    /// empty slot `team_pos`: the price is paid, the friend leaves its row,
    /// which is sorted again, it has its say as a buyer, and only then
    /// joins the team.
    pub open spec fn after_buy_friend<R: Dice>(self, shop_pos: int, team_pos: int, d: R) -> (
        ShopView,
        R,
    ) {
        let friend = self.friends[shop_pos]->0;
        let paid = ShopView {
            gold: (self.gold - PRICE) as nat,
            friends: sorted_slots(self.friends.update(shop_pos, None)),
            ..self
        };
        let (hooked, d1) = paid.after_on_buy(friend, d);
        (ShopView { team: hooked.team.update(team_pos, Some(friend)), ..hooked }, d1)
    }

    /// The shop after the friend at `team_pos` was sold: it leaves the
    /// team, its level is paid out in gold, and it has its say as a seller.
    /// The friends that stay are told of the sale, which changes nothing.
    pub open spec fn after_sell_friend<R: Dice>(self, team_pos: int, d: R) -> (ShopView, R) {
        let a = self.team[team_pos]->0;
        let sold = ShopView {
            team: self.team.update(team_pos, None),
            gold: self.gold + a.level_of(),
            ..self
        };
        sold.after_on_sell(a, d)
    }

    /// A step that tries to buy a friend. The round is over, and nothing
    /// changes, when the gold is short of the price, when nothing is on
    /// offer, or when the team is full. Else the dice picks an offer and a
    /// slot of the team, the slot is freed and the offer bought into it.
    pub open spec fn buy_friend_turn<R: Dice>(self, d: R) -> (bool, ShopView, R) {
        if self.gold < PRICE {
            (true, self, d)
        } else {
            match draw_marked(occupancy(self.friends), d) {
                (None, d1) => (true, self, d1),
                (Some(i), d1) => {
                    let j = d1.face(TEAM_SIZE as nat) as int;
                    let d2 = d1.spent(TEAM_SIZE as nat);
                    if gap_for(self.team, j) is Some {
                        let roomy = ShopView { team: with_room_at(self.team, j), ..self };
                        let (next, d3) = roomy.after_buy_friend(i as int, j, d2);
                        (false, next, d3)
                    } else {
                        (true, self, d2)
                    }
                },
            }
        }
    }

    /// A step that tries to buy a friend on offer and combine it with a
    /// friend of its species in the team. The round is over, and nothing
    /// changes, when the gold is short of the price or when no offer has a
    /// partner in the team. Else the dice picks an offer among those with a
    /// partner and then one of its partners; the price is paid, the offer
    /// leaves its row, which is sorted again, and the partner takes it in.
    /// The partner then has its say as a buyer, and is out of the team
    /// while it does: the friend it may favour is another one.
    pub open spec fn buy_combine_turn<R: Dice>(self, d: R) -> (bool, ShopView, R) {
        if self.gold < PRICE {
            (true, self, d)
        } else {
            match draw_pair(offer_table(self.friends, self.team), d) {
                (None, d1) => (true, self, d1),
                (Some((i, j)), d1) => {
                    let paid = ShopView {
                        gold: (self.gold - PRICE) as nat,
                        friends: sorted_slots(self.friends.update(i as int, None)),
                        ..self
                    };
                    let merged = paid.after_combine(j as int, self.friends[i as int]->0);
                    let survivor = merged.team[j as int]->0;
                    let detached = ShopView { team: merged.team.update(j as int, None), ..merged };
                    let (hooked, d2) = detached.after_on_buy(survivor, d1);
                    (
                        false,
                        ShopView { team: hooked.team.update(j as int, Some(survivor)), ..hooked },
                        d2,
                    )
                },
            }
        }
    }

    /// A step that tries to sell a friend. The round is over, and nothing
    /// changes, when the team is empty. Else the dice picks the friend that
    /// is sold.
    pub open spec fn sell_turn<R: Dice>(self, d: R) -> (bool, ShopView, R) {
        match draw_marked(occupancy(self.team), d) {
            (None, d1) => (true, self, d1),
            (Some(j), d1) => {
                let (next, d2) = self.after_sell_friend(j as int, d1);
                (false, next, d2)
            },
        }
    }

    /// A step that tries to feed a friend. The round is over, and nothing
    /// changes, when the gold is short of the price, when no food is on
    /// offer, or when the team is empty. Else the dice picks the food and
    /// then the friend that eats it.
    pub open spec fn buy_food_turn<R: Dice>(self, d: R) -> (bool, ShopView, R) {
        if self.gold < PRICE {
            (true, self, d)
        } else {
            match draw_marked(occupancy(self.foods), d) {
                (None, d1) => (true, self, d1),
                (Some(i), d1) => match draw_marked(occupancy(self.team), d1) {
                    (None, d2) => (true, self, d2),
                    (Some(j), d2) => (false, self.after_buy_food(i as int, j as int), d2),
                },
            }
        }
    }

    /// A step that tries to combine two friends of the team. The round is
    /// over, and nothing changes, when no two friends are of one species.
    /// Else the dice picks a friend among those with a partner and then one
    /// of its partners; the first leaves the team and the partner takes it
    /// in.
    pub open spec fn combine_turn<R: Dice>(self, d: R) -> (bool, ShopView, R) {
        match draw_pair(team_table(self.team), d) {
            (None, d1) => (true, self, d1),
            (Some((i, j)), d1) => {
                let parted = ShopView { team: self.team.update(i as int, None), ..self };
                (false, parted.after_combine(j as int, self.team[i as int]->0), d1)
            },
        }
    }

    /// Whether a reroll could gain nothing: every offer is there, and every
    /// friend on offer has the health and attack its species starts with.
    pub open spec fn settled(self) -> bool {
        &&& forall|i: int| 0 <= i < self.foods.len() ==> (#[trigger] self.foods[i]) is Some
        &&& forall|i: int|
            0 <= i < self.friends.len() ==> (#[trigger] self.friends[i]) is Some
                && self.friends[i]->0.is_baseline()
    }

    /// A step that tries to reroll. The round is over, and nothing changes,
    /// when there is no gold or when the shop is settled. Else every offer
    /// is replaced and the price of a reroll paid.
    pub open spec fn reroll_turn<R: Dice>(self, d: R) -> (bool, ShopView, R) {
        if self.gold == 0 || self.settled() {
            (true, self, d)
        } else {
            let (next, d1) = self.rerolled(d);
            (false, ShopView { gold: (next.gold - REROLL_PRICE) as nat, ..next }, d1)
        }
    }

    /// What trying `action` makes of the shop and the dice, and whether the
    /// round is over.
    pub open spec fn after_action<R: Dice>(self, action: ShopAction, d: R) -> (bool, ShopView, R) {
        match action {
            ShopAction::BuyFriend => self.buy_friend_turn(d),
            ShopAction::BuyCombineFriend => self.buy_combine_turn(d),
            ShopAction::SellFriend => self.sell_turn(d),
            ShopAction::BuyFood => self.buy_food_turn(d),
            ShopAction::CombineFriends => self.combine_turn(d),
            ShopAction::Reroll => self.reroll_turn(d),
        }
    }

    /// One step of the round: the dice names an action, and the action is
    /// tried.
    pub open spec fn after_step<R: Dice>(self, d: R) -> (bool, ShopView, R) {
        let (action, d1) = ShopAction::drawn(d);
        self.after_action(action, d1)
    }

    /// The shop after the friend at `team_pos` took `g` in.
    pub open spec fn after_combine(self, team_pos: int, g: Friend) -> ShopView {
        ShopView {
            team: self.team.update(team_pos, Some(self.team[team_pos]->0.merged(g))),
            ..self
        }
    }

    /// The shop after the food at `shop_pos` was bought for the friend at
    /// `team_pos`: the price is paid, the food leaves its row, which is
    /// sorted again, and the friend has eaten.
    pub open spec fn after_buy_food(self, shop_pos: int, team_pos: int) -> ShopView {
        ShopView {
            team: self.team.update(
                team_pos,
                Some(self.team[team_pos]->0.fed(self.foods[shop_pos]->0)),
            ),
            gold: (self.gold - PRICE) as nat,
            foods: sorted_slots(self.foods.update(shop_pos, None)),
            ..self
        }
    }
}

/// Fresh offers are all there, and none is stronger than a species starts.
pub proof fn lemma_fresh_friends<R: Dice>(n: nat, d: R)
    ensures
        fresh_friends(n, d).0.len() == n,
        forall|i: int|
            0 <= i < n ==> (#[trigger] fresh_friends(n, d).0[i]) is Some && fresh_friends(
                n,
                d,
            ).0[i]->0.is_baseline() && fresh_friends(n, d).0[i]->0.bounded_by(
                crate::species::BASE_STAT_MAX as int,
            ),
    decreases n,
{
    if n > 0 {
        lemma_fresh_friends((n - 1) as nat, d);
    }
}

/// Fresh food offers are all there.
pub proof fn lemma_fresh_foods<R: Dice>(n: nat, d: R)
    ensures
        fresh_foods(n, d).0.len() == n,
        forall|i: int| 0 <= i < n ==> (#[trigger] fresh_foods(n, d).0[i]) is Some,
    decreases n,
{
    if n > 0 {
        lemma_fresh_foods((n - 1) as nat, d);
    }
}

/// One round's shop: the team, the gold, and what is on offer.
#[derive(Clone, Copy, Debug, PartialEq, Eq, Hash)]
pub struct Shop {
    pub team: Team,
    pub gold: usize,
    shop_friends: [Option<Friend>; SHOP_ANIMAL_COUNT],
    shop_foods: [Option<Food>; SHOP_FOOD_COUNT],
}

impl View for Shop {
    type V = ShopView;

    closed spec fn view(&self) -> ShopView {
        ShopView {
            team: self.team@,
            gold: self.gold as nat,
            friends: self.shop_friends@,
            foods: self.shop_foods@,
        }
    }
}

impl Shop {
    /// The rows of a shop have their fixed sizes, and its gold is a machine
    /// integer.
    pub proof fn lemma_view(&self)
        ensures
            self@.gold <= usize::MAX,
            self@.team.len() == TEAM_SIZE,
            self@.friends.len() == SHOP_ANIMAL_COUNT,
            self@.foods.len() == SHOP_FOOD_COUNT,
    {
    }

    /// Opens a shop: default gold, an empty team, and a first set of
    /// offers, which costs nothing.
    pub fn new<R: Dice>(rng: &mut R) -> (shop: Shop)
        ensures
            (shop@, *final(rng)) == ShopView::opening().rerolled(*old(rng)),
            shop@.wf(),
            shop@.bounded_by(DEFAULT_GOLD as int),
            shop@.has_headroom(),
            shop@.gold == DEFAULT_GOLD,
            occupied(shop@.team) == 0,
            occupied(shop@.friends) == SHOP_ANIMAL_COUNT,
            occupied(shop@.foods) == SHOP_FOOD_COUNT,
    {
        let mut out = Shop {
            team: Team::new(),
            gold: DEFAULT_GOLD,
            shop_friends: [None; SHOP_ANIMAL_COUNT],
            shop_foods: [None; SHOP_FOOD_COUNT],
        };
        proof {
            assert(out@.team =~= ShopView::opening().team);
            assert(out@.friends =~= ShopView::opening().friends);
            assert(out@.foods =~= ShopView::opening().foods);
        }
        out.reroll(rng);
        out
    }

    /// Replaces every offer by a fresh one and sorts both rows. The gold is
    /// not touched: who asks for the reroll pays for it.
    pub fn reroll<R: Dice>(&mut self, rng: &mut R)
        ensures
            (final(self)@, *final(rng)) == old(self)@.rerolled(*old(rng)),
            final(self)@.wf(),
            final(self)@.team == old(self)@.team,
            final(self)@.gold == old(self)@.gold,
            occupied(final(self)@.friends) == SHOP_ANIMAL_COUNT,
            occupied(final(self)@.foods) == SHOP_FOOD_COUNT,
            row_bounded_by(final(self)@.friends, crate::species::BASE_STAT_MAX as int),
    {
        let ghost d0 = *rng;
        let mut i: usize = 0;
        while i < SHOP_ANIMAL_COUNT
            invariant
                i <= SHOP_ANIMAL_COUNT,
                self.team == old(self).team,
                self.gold == old(self).gold,
                self.shop_foods == old(self).shop_foods,
                d0 == *old(rng),
                self.shop_friends@.take(i as int) == fresh_friends(i as nat, d0).0,
                *rng == fresh_friends(i as nat, d0).1,
            decreases SHOP_ANIMAL_COUNT - i,
        {
            let ghost row = self.shop_friends@.take(i as int);
            let species: Species = Species::sample(rng);
            self.shop_friends[i] = Some(Friend::new(species));
            proof {
                assert(self.shop_friends@.take(i + 1) =~= row.push(Some(Friend::fresh(species))));
            }
            i = i + 1;
        }
        let ghost d1 = *rng;
        let mut k: usize = 0;
        while k < SHOP_FOOD_COUNT
            invariant
                k <= SHOP_FOOD_COUNT,
                self.team == old(self).team,
                self.gold == old(self).gold,
                d0 == *old(rng),
                d1 == fresh_friends(SHOP_ANIMAL_COUNT as nat, d0).1,
                self.shop_friends@ == fresh_friends(SHOP_ANIMAL_COUNT as nat, d0).0,
                self.shop_foods@.take(k as int) == fresh_foods(k as nat, d1).0,
                *rng == fresh_foods(k as nat, d1).1,
            decreases SHOP_FOOD_COUNT - k,
        {
            let ghost row = self.shop_foods@.take(k as int);
            let food: Food = Food::sample(rng);
            self.shop_foods[k] = Some(food);
            proof {
                assert(self.shop_foods@.take(k + 1) =~= row.push(Some(food)));
            }
            k = k + 1;
        }
        proof {
            assert(self.shop_foods@.take(SHOP_FOOD_COUNT as int) =~= self.shop_foods@);
            lemma_fresh_friends(SHOP_ANIMAL_COUNT as nat, d0);
            lemma_fresh_foods(SHOP_FOOD_COUNT as nat, d1);
            crate::order::lemma_sorted_slots_members(self.shop_friends@);
            crate::order::lemma_sorted_slots_members(self.shop_foods@);
            crate::dice::lemma_all_taken(sorted_slots(self.shop_friends@));
            crate::dice::lemma_all_taken(sorted_slots(self.shop_foods@));
        }
        sort_slots(&mut self.shop_friends);
        sort_slots(&mut self.shop_foods);
    }

    /// The gold in the purse.
    pub fn gold(&self) -> (g: usize)
        ensures
            g == self@.gold,
    {
        self.gold
    }

    /// The team.
    pub fn team(&self) -> (t: Team)
        ensures
            t@ == self@.team,
    {
        self.team
    }

    /// The friends on offer, in the canonical order.
    pub fn friends(&self) -> (row: [Option<Friend>; SHOP_ANIMAL_COUNT])
        ensures
            row@ == self@.friends,
    {
        self.shop_friends
    }

    /// The foods on offer, in the canonical order.
    pub fn foods(&self) -> (row: [Option<Food>; SHOP_FOOD_COUNT])
        ensures
            row@ == self@.foods,
    {
        self.shop_foods
    }

    /// Picks one of the friends on offer, none when the row is empty.
    pub fn random_friend<R: Dice>(&self, rng: &mut R) -> (r: Option<usize>)
        ensures
            (r, *final(rng)) == draw_marked(occupancy(self@.friends), *old(rng)),
            r is None <==> occupied(self@.friends) == 0,
            r matches Some(i) ==> i < SHOP_ANIMAL_COUNT && self@.friends[i as int] is Some,
    {
        pick_one(rng, self.shop_friends.as_slice())
    }

    /// Picks one of the foods on offer, none when the row is empty.
    pub fn random_food<R: Dice>(&self, rng: &mut R) -> (r: Option<usize>)
        ensures
            (r, *final(rng)) == draw_marked(occupancy(self@.foods), *old(rng)),
            r is None <==> occupied(self@.foods) == 0,
            r matches Some(i) ==> i < SHOP_FOOD_COUNT && self@.foods[i as int] is Some,
    {
        pick_one(rng, self.shop_foods.as_slice())
    }

    /// A shop with the given team, gold and offers; the offers are put into
    /// the canonical order.
    pub fn with_offers(
        team: Team,
        gold: usize,
        friends: [Option<Friend>; SHOP_ANIMAL_COUNT],
        foods: [Option<Food>; SHOP_FOOD_COUNT],
    ) -> (shop: Shop)
        ensures
            shop@ == (ShopView {
                team: team@,
                gold: gold as nat,
                friends: sorted_slots(friends@),
                foods: sorted_slots(foods@),
            }),
            shop@.wf(),
    {
        let mut shop = Shop { team, gold, shop_friends: friends, shop_foods: foods };
        sort_slots(&mut shop.shop_friends);
        sort_slots(&mut shop.shop_foods);
        shop
    }

    /// Whether the gold and every counter of every friend could grow by
    /// `STEP_GROWTH` within the machine's integers.
    pub fn has_headroom(&self) -> (b: bool)
        ensures
            b == self@.has_headroom(),
    {
        let cap: usize = usize::MAX - STEP_GROWTH;
        self.gold <= cap && row_within(self.team.slots.as_slice(), cap) && row_within(
            self.shop_friends.as_slice(),
            cap,
        )
    }

    /// The friend at `team_pos` takes the friend `g` of its own species in:
    /// its health and its attack become one more than the larger of the
    /// two, and it gains one point of experience.
    pub fn combine_friends(&mut self, team_pos: usize, g: Friend)
        requires
            team_pos < TEAM_SIZE,
            old(self)@.team[team_pos as int] is Some,
            old(self)@.team[team_pos as int]->0.species == g.species,
            old(self)@.team[team_pos as int]->0.bounded_by(usize::MAX - 1),
            g.bounded_by(usize::MAX - 1),
        ensures
            final(self)@ == old(self)@.after_combine(team_pos as int, g),
            final(self)@.team[team_pos as int] is Some,
            final(self)@.team[team_pos as int]->0.health == vstd::math::max(
                old(self)@.team[team_pos as int]->0.health as int,
                g.health as int,
            ) + 1,
            final(self)@.team[team_pos as int]->0.attack == vstd::math::max(
                old(self)@.team[team_pos as int]->0.attack as int,
                g.attack as int,
            ) + 1,
            final(self)@.team[team_pos as int]->0.exp == old(self)@.team[team_pos as int]->0.exp
                + 1,
            old(self)@.wf() ==> final(self)@.wf(),
    {
        match self.team.get(team_pos) {
            Some(f) => {
                self.team.set(team_pos, Some(f.absorb(g)));
            },
            None => {},
        }
    }

    /// Buys the food on offer at `shop_pos` for the friend at `team_pos`.
    pub fn buy_food(&mut self, shop_pos: usize, team_pos: usize)
        requires
            shop_pos < SHOP_FOOD_COUNT,
            team_pos < TEAM_SIZE,
            old(self)@.foods[shop_pos as int] is Some,
            old(self)@.team[team_pos as int] is Some,
            old(self)@.gold >= PRICE,
            old(self)@.team[team_pos as int]->0.bounded_by(usize::MAX - 1),
        ensures
            final(self)@ == old(self)@.after_buy_food(shop_pos as int, team_pos as int),
            final(self)@.gold == old(self)@.gold - PRICE,
            final(self)@.friends == old(self)@.friends,
            is_sorted(final(self)@.foods),
            occupied(final(self)@.foods) == occupied(old(self)@.foods) - 1,
            old(self)@.wf() ==> final(self)@.wf(),
    {
        match (self.team.get(team_pos), self.shop_foods[shop_pos]) {
            (Some(friend), Some(food)) => {
                proof {
                    lemma_sorted_after_removal(self.shop_foods@, shop_pos as int);
                }
                self.shop_foods[shop_pos] = None;
                sort_slots(&mut self.shop_foods);
                self.gold = self.gold - PRICE;
                self.team.set(team_pos, Some(friend.feed(food)));
            },
            _ => {},
        }
    }

    /// Lets the buyer `f`, not yet in the team, have its say.
    pub fn on_buy<R: Dice>(&mut self, f: Friend, rng: &mut R)
        requires
            old(self)@.bounded_by(usize::MAX - 1),
        ensures
            (final(self)@, *final(rng)) == old(self)@.after_on_buy(f, *old(rng)),
            final(self)@.gold == old(self)@.gold,
            final(self)@.friends == old(self)@.friends,
            final(self)@.foods == old(self)@.foods,
            forall|i: int|
                0 <= i < TEAM_SIZE ==> ((#[trigger] final(self)@.team[i]) is Some <==> old(
                    self,
                )@.team[i] is Some),
            old(self)@.wf() ==> final(self)@.wf(),
    {
        proof {
            lemma_buff_each(
                self@.team,
                draw_distinct(occupancy(self@.team), 1, *rng).0,
                1,
                1,
            );
        }
        match f.species {
            Species::Otter => {
                let picks: Vec<usize> = self.team.random_friends(1, rng);
                self.team.buff_picked(&picks, 1, 1);
            },
            _ => {},
        }
    }

    /// Lets the seller `a`, no longer in the team, have its say.
    pub fn on_sell<R: Dice>(&mut self, a: Friend, rng: &mut R)
        requires
            old(self)@.bounded_by(usize::MAX - MAX_LEVEL),
        ensures
            (final(self)@, *final(rng)) == old(self)@.after_on_sell(a, *old(rng)),
            final(self)@.foods == old(self)@.foods,
            forall|i: int|
                0 <= i < TEAM_SIZE ==> ((#[trigger] final(self)@.team[i]) is Some <==> old(
                    self,
                )@.team[i] is Some),
            old(self)@.wf() ==> final(self)@.wf(),
    {
        let delta: usize = a.level();
        proof {
            lemma_buff_each(
                self@.team,
                draw_distinct(occupancy(self@.team), 2, *rng).0,
                delta as nat,
                0,
            );
        }
        match a.species {
            Species::Beaver => {
                let picks: Vec<usize> = self.team.random_friends(2, rng);
                self.team.buff_picked(&picks, delta, 0);
            },
            Species::Duck => {
                let ghost row = self.shop_friends@;
                proof {
                    if is_sorted(row) {
                        lemma_buff_all_sorted(row, delta as nat);
                    }
                }
                let mut i: usize = 0;
                while i < SHOP_ANIMAL_COUNT
                    invariant
                        i <= SHOP_ANIMAL_COUNT,
                        delta <= MAX_LEVEL,
                        row.len() == SHOP_ANIMAL_COUNT,
                        row_bounded_by(row, usize::MAX - MAX_LEVEL),
                        self.team == old(self).team,
                        self.gold == old(self).gold,
                        self.shop_foods == old(self).shop_foods,
                        forall|x: int| 0 <= x < i ==> self.shop_friends@[x] == buff_all(row, delta as nat)[x],
                        forall|x: int| i <= x < SHOP_ANIMAL_COUNT ==> self.shop_friends@[x] == row[x],
                    decreases SHOP_ANIMAL_COUNT - i,
                {
                    match self.shop_friends[i] {
                        Some(f) => {
                            assert(row[i as int] is Some);
                            self.shop_friends[i] = Some(f.buff(delta, 0));
                        },
                        None => {},
                    }
                    i = i + 1;
                }
                proof {
                    assert(self.shop_friends@ =~= buff_all(row, delta as nat));
                }
            },
            Species::Pig => {
                self.gold = self.gold + delta;
            },
            _ => {},
        }
    }

    /// Tells the friend at `_i` that another friend was sold. No species
    /// reacts to that, so nothing changes; the call is made all the same,
    /// once for every friend that stays.
    pub fn on_sold(&mut self, _i: usize)
        ensures
            *final(self) == *old(self),
    {
    }

    /// Sells the friend at `team_pos`.
    pub fn sell_friend<R: Dice>(&mut self, team_pos: usize, rng: &mut R)
        requires
            team_pos < TEAM_SIZE,
            old(self)@.team[team_pos as int] is Some,
            old(self)@.has_headroom(),
        ensures
            (final(self)@, *final(rng)) == old(self)@.after_sell_friend(
                team_pos as int,
                *old(rng),
            ),
            final(self)@.team[team_pos as int] is None,
            forall|i: int|
                0 <= i < TEAM_SIZE && i != team_pos ==> ((#[trigger] final(self)@.team[i]) is Some
                    <==> old(self)@.team[i] is Some),
            old(self)@.gold + 1 <= final(self)@.gold <= old(self)@.gold + 2 * MAX_LEVEL,
            old(self)@.wf() ==> final(self)@.wf(),
    {
        match self.team.take(team_pos) {
            Some(a) => {
                self.gold = self.gold + a.level();
                self.on_sell(a, rng);
                let ghost sold = *self;
                let mut i: usize = 0;
                while i < TEAM_SIZE
                    invariant
                        i <= TEAM_SIZE,
                        *self == sold,
                    decreases TEAM_SIZE - i,
                {
                    if i != team_pos && self.team.get(i).is_some() {
                        self.on_sold(i);
                    }
                    i = i + 1;
                }
            },
            None => {},
        }
    }

    /// Buys the friend on offer at `shop_pos` into the empty slot
    /// `team_pos`.
    pub fn buy_friend<R: Dice>(&mut self, shop_pos: usize, team_pos: usize, rng: &mut R)
        requires
            shop_pos < SHOP_ANIMAL_COUNT,
            team_pos < TEAM_SIZE,
            old(self)@.friends[shop_pos as int] is Some,
            old(self)@.team[team_pos as int] is None,
            old(self)@.gold >= PRICE,
            old(self)@.bounded_by(usize::MAX - 1),
        ensures
            (final(self)@, *final(rng)) == old(self)@.after_buy_friend(
                shop_pos as int,
                team_pos as int,
                *old(rng),
            ),
            final(self)@.gold == old(self)@.gold - PRICE,
            final(self)@.team[team_pos as int] == old(self)@.friends[shop_pos as int],
            final(self)@.foods == old(self)@.foods,
            is_sorted(final(self)@.friends),
            occupied(final(self)@.friends) == occupied(old(self)@.friends) - 1,
            old(self)@.wf() ==> final(self)@.wf(),
    {
        match self.shop_friends[shop_pos] {
            Some(friend) => {
                proof {
                    lemma_sorted_after_removal(self.shop_friends@, shop_pos as int);
                    lemma_sorted_row_bounded(
                        self.shop_friends@.update(shop_pos as int, None),
                        usize::MAX - 1,
                    );
                }
                self.gold = self.gold - PRICE;
                self.shop_friends[shop_pos] = None;
                sort_slots(&mut self.shop_friends);
                self.on_buy(friend, rng);
                self.team.summon(friend, team_pos);
            },
            None => {},
        }
    }
    /// For each offer, which slots of the team hold a friend of its species.
    pub fn offer_pairings(&self) -> (table: [[bool; TEAM_SIZE]; SHOP_ANIMAL_COUNT])
        ensures
            rows_of(table) == offer_table(self@.friends, self@.team),
    {
        let mut table: [[bool; TEAM_SIZE]; SHOP_ANIMAL_COUNT] = [[false; TEAM_SIZE];
            SHOP_ANIMAL_COUNT];
        let mut i: usize = 0;
        while i < SHOP_ANIMAL_COUNT
            invariant
                i <= SHOP_ANIMAL_COUNT,
                forall|x: int|
                    0 <= x < i ==> table@[x]@ == partner_row(
                        self@.team,
                        self@.friends[x],
                        TEAM_SIZE as int,
                    ),
            decreases SHOP_ANIMAL_COUNT - i,
        {
            let row: [bool; TEAM_SIZE] = self.team.partners_of(&self.shop_friends[i], TEAM_SIZE);
            table[i] = row;
            i = i + 1;
        }
        proof {
            assert(rows_of(table) =~= offer_table(self@.friends, self@.team));
        }
        table
    }

    /// Whether a reroll could gain nothing.
    pub fn is_settled(&self) -> (b: bool)
        ensures
            b == self@.settled(),
    {
        let mut k: usize = 0;
        while k < SHOP_FOOD_COUNT
            invariant
                k <= SHOP_FOOD_COUNT,
                forall|x: int| 0 <= x < k ==> (#[trigger] self@.foods[x]) is Some,
            decreases SHOP_FOOD_COUNT - k,
        {
            if self.shop_foods[k].is_none() {
                return false;
            }
            k = k + 1;
        }
        let mut i: usize = 0;
        while i < SHOP_ANIMAL_COUNT
            invariant
                i <= SHOP_ANIMAL_COUNT,
                forall|x: int| 0 <= x < SHOP_FOOD_COUNT ==> (#[trigger] self@.foods[x]) is Some,
                forall|x: int|
                    0 <= x < i ==> (#[trigger] self@.friends[x]) is Some
                        && self@.friends[x]->0.is_baseline(),
            decreases SHOP_ANIMAL_COUNT - i,
        {
            match self.shop_friends[i] {
                Some(f) => {
                    if !f.has_base_stats() {
                        return false;
                    }
                },
                None => {
                    return false;
                },
            }
            i = i + 1;
        }
        true
    }

    fn try_buy_friend<R: Dice>(&mut self, rng: &mut R) -> (over: bool)
        requires
            old(self)@.wf(),
            old(self)@.has_headroom(),
        ensures
            (over, final(self)@, *final(rng)) == old(self)@.buy_friend_turn(*old(rng)),
            final(self)@.wf(),
            over ==> final(self)@ == old(self)@,
            !over ==> final(self)@.gold == old(self)@.gold - PRICE,
    {
        if self.gold < PRICE {
            return true;
        }
        match self.random_friend(rng) {
            None => true,
            Some(i) => {
                let j: usize = rng.roll(TEAM_SIZE);
                proof {
                    lemma_with_room_at(self@.team, j as int);
                }
                if self.team.make_space_at(j) {
                    self.buy_friend(i, j, rng);
                    false
                } else {
                    true
                }
            },
        }
    }

    fn try_buy_combine<R: Dice>(&mut self, rng: &mut R) -> (over: bool)
        requires
            old(self)@.wf(),
            old(self)@.has_headroom(),
        ensures
            (over, final(self)@, *final(rng)) == old(self)@.buy_combine_turn(*old(rng)),
            final(self)@.wf(),
            over ==> final(self)@ == old(self)@,
            !over ==> final(self)@.gold == old(self)@.gold - PRICE,
    {
        if self.gold < PRICE {
            return true;
        }
        let table: [[bool; TEAM_SIZE]; SHOP_ANIMAL_COUNT] = self.offer_pairings();
        match pick_pair(rng, &table) {
            None => true,
            Some((i, j)) => {
                match self.shop_friends[i] {
                    Some(friend) => {
                        proof {
                            lemma_sorted_after_removal(self.shop_friends@, i as int);
                            lemma_sorted_row_bounded(
                                self.shop_friends@.update(i as int, None),
                                usize::MAX - STEP_GROWTH,
                            );
                        }
                        self.shop_friends[i] = None;
                        sort_slots(&mut self.shop_friends);
                        self.gold = self.gold - PRICE;
                        self.combine_friends(j, friend);
                        match self.team.take(j) {
                            Some(survivor) => {
                                self.on_buy(survivor, rng);
                                self.team.set(j, Some(survivor));
                            },
                            None => {},
                        }
                        false
                    },
                    None => true,
                }
            },
        }
    }

    fn try_sell<R: Dice>(&mut self, rng: &mut R) -> (over: bool)
        requires
            old(self)@.wf(),
            old(self)@.has_headroom(),
        ensures
            (over, final(self)@, *final(rng)) == old(self)@.sell_turn(*old(rng)),
            final(self)@.wf(),
            over ==> final(self)@ == old(self)@,
            old(self)@.gold <= final(self)@.gold <= old(self)@.gold + 2 * MAX_LEVEL,
    {
        match self.team.random_friend(rng) {
            None => true,
            Some(j) => {
                self.sell_friend(j, rng);
                false
            },
        }
    }

    fn try_buy_food<R: Dice>(&mut self, rng: &mut R) -> (over: bool)
        requires
            old(self)@.wf(),
            old(self)@.has_headroom(),
        ensures
            (over, final(self)@, *final(rng)) == old(self)@.buy_food_turn(*old(rng)),
            final(self)@.wf(),
            over ==> final(self)@ == old(self)@,
            !over ==> final(self)@.gold == old(self)@.gold - PRICE,
    {
        if self.gold < PRICE {
            return true;
        }
        match self.random_food(rng) {
            None => true,
            Some(i) => match self.team.random_friend(rng) {
                None => true,
                Some(j) => {
                    self.buy_food(i, j);
                    false
                },
            },
        }
    }

    fn try_combine<R: Dice>(&mut self, rng: &mut R) -> (over: bool)
        requires
            old(self)@.wf(),
            old(self)@.has_headroom(),
        ensures
            (over, final(self)@, *final(rng)) == old(self)@.combine_turn(*old(rng)),
            final(self)@.wf(),
            over ==> final(self)@ == old(self)@,
            final(self)@.gold == old(self)@.gold,
    {
        let table: [[bool; TEAM_SIZE]; TEAM_SIZE] = self.team.pairings();
        match pick_pair(rng, &table) {
            None => true,
            Some((i, j)) => {
                match self.team.take(i) {
                    Some(friend) => {
                        self.combine_friends(j, friend);
                        false
                    },
                    None => true,
                }
            },
        }
    }

    fn try_reroll<R: Dice>(&mut self, rng: &mut R) -> (over: bool)
        requires
            old(self)@.wf(),
            old(self)@.has_headroom(),
        ensures
            (over, final(self)@, *final(rng)) == old(self)@.reroll_turn(*old(rng)),
            final(self)@.wf(),
            over ==> final(self)@ == old(self)@,
            !over ==> final(self)@.gold == old(self)@.gold - REROLL_PRICE,
    {
        if self.gold == 0 {
            return true;
        }
        if self.is_settled() {
            return true;
        }
        self.reroll(rng);
        self.gold = self.gold - REROLL_PRICE;
        false
    }

    /// Tries `action`: carries it out if the shop allows it, and else
    /// leaves the shop as it is. Answers whether the round is over, which
    /// it is exactly when the action could not be carried out.
    pub fn perform<R: Dice>(&mut self, action: ShopAction, rng: &mut R) -> (over: bool)
        requires
            old(self)@.wf(),
            old(self)@.has_headroom(),
        ensures
            (over, final(self)@, *final(rng)) == old(self)@.after_action(action, *old(rng)),
            final(self)@.wf(),
            over ==> final(self)@ == old(self)@,
            !over ==> old(self)@.gold >= action.price(),
            !over && action != ShopAction::SellFriend ==> final(self)@.gold == old(self)@.gold
                - action.price(),
            old(self)@.gold - action.price() <= final(self)@.gold <= old(self)@.gold + 2
                * MAX_LEVEL,
            forall|cap: int, top: int|
                #![trigger old(self)@.bounded_by(cap), final(self)@.bounded_by(top)]
                old(self)@.bounded_by(cap) && cap + STEP_GROWTH <= top ==> final(self)@.bounded_by(
                    top,
                ),
    {
        proof {
            let v = self@;
            let d = *rng;
            let next = v.after_action(action, d).1;
            assert forall|cap: int, top: int|
                #![trigger v.bounded_by(cap), next.bounded_by(top)]
                v.bounded_by(cap) && cap + STEP_GROWTH <= top implies next.bounded_by(top) by {
                let c = if cap <= usize::MAX - STEP_GROWTH {
                    cap
                } else {
                    usize::MAX - STEP_GROWTH
                };
                crate::bounds::lemma_action_bound(v, action, d, c);
                crate::bounds::lemma_row_bound_grows(next.team, c + STEP_GROWTH, top);
                crate::bounds::lemma_row_bound_grows(next.friends, c + STEP_GROWTH, top);
            }
        }
        match action {
            ShopAction::BuyFriend => self.try_buy_friend(rng),
            ShopAction::BuyCombineFriend => self.try_buy_combine(rng),
            ShopAction::SellFriend => self.try_sell(rng),
            ShopAction::BuyFood => self.try_buy_food(rng),
            ShopAction::CombineFriends => self.try_combine(rng),
            ShopAction::Reroll => self.try_reroll(rng),
        }
    }

    /// One step of the round: rolls for an action and tries it. Answers
    /// true when the round is over, which leaves the shop as it was, and
    /// false when the action was carried out.
    pub fn step<R: Dice>(&mut self, rng: &mut R) -> (over: bool)
        requires
            old(self)@.wf(),
            old(self)@.has_headroom(),
        ensures
            (over, final(self)@, *final(rng)) == old(self)@.after_step(*old(rng)),
            final(self)@.wf(),
            over ==> final(self)@ == old(self)@,
            old(self)@.gold - PRICE <= final(self)@.gold <= old(self)@.gold + 2 * MAX_LEVEL,
            forall|cap: int, top: int|
                #![trigger old(self)@.bounded_by(cap), final(self)@.bounded_by(top)]
                old(self)@.bounded_by(cap) && cap + STEP_GROWTH <= top ==> final(self)@.bounded_by(
                    top,
                ),
            occupied(final(self)@.team) <= TEAM_SIZE,
            occupied(final(self)@.friends) <= SHOP_ANIMAL_COUNT,
            occupied(final(self)@.foods) <= SHOP_FOOD_COUNT,
    {
        let action: ShopAction = ShopAction::sample(rng);
        let over: bool = self.perform(action, rng);
        proof {
            crate::dice::lemma_occupied_within(self@.team);
            crate::dice::lemma_occupied_within(self@.friends);
            crate::dice::lemma_occupied_within(self@.foods);
        }
        over
    }
}

/// Whether `next` is `v` after the friend at `i` of the team was merged
/// into the friend at `j`: slot `i` is empty, slot `j` holds the survivor
/// with one more than the larger health, one more than the larger attack
/// and one more point of experience, and nothing else has changed.
pub open spec fn combined_in_team(v: ShopView, next: ShopView, i: int, j: int) -> bool {
    let a = v.team[j]->0;
    let b = v.team[i]->0;
    &&& 0 <= i < TEAM_SIZE && 0 <= j < TEAM_SIZE && i != j
    &&& same_species(v.team[i], v.team[j])
    &&& next == (ShopView { team: v.team.update(i, None).update(j, Some(a.merged(b))), ..v })
    &&& a.merged(b).health == vstd::math::max(a.health as int, b.health as int) + 1
    &&& a.merged(b).attack == vstd::math::max(a.attack as int, b.attack as int) + 1
    &&& a.merged(b).exp == a.exp + 1
    &&& occupied(next.team) == occupied(v.team) - 1
}

/// Whether `next` is `v` after the offer at `i` was bought and merged into
/// the friend at `j` of the team: the price is paid, the offer is gone
/// from its row, slot `j` holds the survivor with one more than the larger
/// health, one more than the larger attack and one more point of
/// experience, and the team has the friends in the slots it had them in.
pub open spec fn combined_from_offer(v: ShopView, next: ShopView, i: int, j: int) -> bool {
    let a = v.team[j]->0;
    let b = v.friends[i]->0;
    &&& 0 <= i < SHOP_ANIMAL_COUNT && 0 <= j < TEAM_SIZE
    &&& same_species(v.friends[i], v.team[j])
    &&& next.gold == v.gold - PRICE
    &&& next.friends == sorted_slots(v.friends.update(i, None))
    &&& occupied(next.friends) == occupied(v.friends) - 1
    &&& next.foods == v.foods
    &&& next.team[j] == Some(a.merged(b))
    &&& a.merged(b).health == vstd::math::max(a.health as int, b.health as int) + 1
    &&& a.merged(b).attack == vstd::math::max(a.attack as int, b.attack as int) + 1
    &&& a.merged(b).exp == a.exp + 1
    &&& next.team.len() == TEAM_SIZE
    &&& forall|k: int| 0 <= k < TEAM_SIZE ==> ((#[trigger] next.team[k]) is Some <==> v.team[k] is Some)
}

/// Whether no two friends of the team are of one species.
pub open spec fn no_pair_in_team(team: Seq<Option<Friend>>) -> bool {
    forall|i: int, j: int|
        0 <= i < team.len() && 0 <= j < team.len() && i != j ==> !same_species(
            #[trigger] team[i],
            #[trigger] team[j],
        )
}

/// Whether no offer has a friend of its species in the team.
pub open spec fn no_pair_with_offer(friends: Seq<Option<Friend>>, team: Seq<Option<Friend>>) -> bool {
    forall|i: int, j: int|
        0 <= i < friends.len() && 0 <= j < team.len() ==> !same_species(
            #[trigger] friends[i],
            #[trigger] team[j],
        )
}

/// A step that combines within the team ends the round exactly when no two
/// friends are of one species. Else it merges one friend into another one,
/// never a friend into itself: the survivor has one more than the larger
/// health and the larger attack and one more point of experience, and the
/// team has one friend fewer.
pub proof fn lemma_combine_turn<R: Dice>(v: ShopView, d: R)
    requires
        v.wf(),
        v.has_headroom(),
    ensures
        v.combine_turn(d).0 <==> no_pair_in_team(v.team),
        v.combine_turn(d).0 ==> v.combine_turn(d).1 == v,
        !v.combine_turn(d).0 ==> exists|i: int, j: int|
            combined_in_team(v, v.combine_turn(d).1, i, j),
{
    let rows = team_table(v.team);
    crate::dice::lemma_draw_pair(rows, d);
    if crate::dice::no_marks(rows) {
        assert forall|i: int, j: int|
            0 <= i < v.team.len() && 0 <= j < v.team.len() && i != j implies !same_species(
            #[trigger] v.team[i],
            #[trigger] v.team[j],
        ) by {
            assert(!rows[i][j]);
        }
    }
    if no_pair_in_team(v.team) {
        assert forall|i: int, j: int|
            0 <= i < rows.len() && 0 <= j < rows[i].len() implies !(#[trigger] rows[i][j]) by {
            if i != j {
                assert(!same_species(v.team[i], v.team[j]));
            }
        }
    }
    match crate::dice::draw_pair(rows, d).0 {
        None => {},
        Some((i, j)) => {
            let next = v.combine_turn(d).1;
            assert(rows[i as int][j as int]);
            let parted = v.team.update(i as int, None);
            assert(occupancy(parted) =~= occupancy(v.team).update(i as int, false));
            crate::dice::lemma_unmark(occupancy(v.team), i as int);
            assert(occupancy(next.team) =~= occupancy(parted));
            assert(combined_in_team(v, next, i as int, j as int));
        },
    }
}

/// A step that buys and combines ends the round exactly when the gold is
/// short of the price or no offer has a friend of its species in the team.
/// Else it merges one offer into one friend of the team: the survivor has
/// one more than the larger health and the larger attack and one more
/// point of experience, whatever the survivor then does as a buyer; the
/// row of offers has one offer fewer and the team as many friends as
/// before.
pub proof fn lemma_buy_combine_turn<R: Dice>(v: ShopView, d: R)
    requires
        v.wf(),
        v.has_headroom(),
    ensures
        v.buy_combine_turn(d).0 <==> v.gold < PRICE || no_pair_with_offer(v.friends, v.team),
        v.buy_combine_turn(d).0 ==> v.buy_combine_turn(d).1 == v,
        !v.buy_combine_turn(d).0 ==> exists|i: int, j: int|
            combined_from_offer(v, v.buy_combine_turn(d).1, i, j),
{
    let rows = offer_table(v.friends, v.team);
    crate::dice::lemma_draw_pair(rows, d);
    if crate::dice::no_marks(rows) {
        assert forall|i: int, j: int|
            0 <= i < v.friends.len() && 0 <= j < v.team.len() implies !same_species(
            #[trigger] v.friends[i],
            #[trigger] v.team[j],
        ) by {
            assert(!rows[i][j]);
        }
    }
    if no_pair_with_offer(v.friends, v.team) {
        assert forall|i: int, j: int|
            0 <= i < rows.len() && 0 <= j < rows[i].len() implies !(#[trigger] rows[i][j]) by {
            assert(!same_species(v.friends[i], v.team[j]));
        }
    }
    if v.gold >= PRICE {
        match crate::dice::draw_pair(rows, d) {
            (None, _) => {},
            (Some((i, j)), d1) => {
                let next = v.buy_combine_turn(d).1;
                assert(rows[i as int][j as int]);
                lemma_sorted_after_removal(v.friends, i as int);
                let survivor = v.team[j as int]->0.merged(v.friends[i as int]->0);
                let detached = v.team.update(j as int, Some(survivor)).update(j as int, None);
                let marks = occupancy(detached);
                let targets = draw_distinct(marks, 1, d1).0;
                crate::dice::lemma_draw_distinct(marks, 1, d1);
                lemma_buff_each(detached, targets, 1, 1);
                assert(combined_from_offer(v, next, i as int, j as int));
            },
        }
    }
}

} // verus!
