use pet_shop::{Food, Friend, Modifier, Shop, ShopAction, Species, Tape, Team, DEFAULT_GOLD};

fn grown(species: Species, health: usize, attack: usize, exp: usize) -> Friend {
    Friend { species, health, attack, exp, modifier: None }
}

fn team_of(members: &[(usize, Friend)]) -> Team {
    let mut team = Team::new();
    for (i, f) in members {
        team.set(*i, Some(*f));
    }
    team
}

fn bare(team: Team, gold: usize) -> Shop {
    Shop::with_offers(team, gold, [None, None, None], [None, None])
}

/// A long list of numbers from a fixed seed.
fn numbers(seed: u64, n: usize) -> Vec<usize> {
    let mut state = seed;
    let mut out = Vec::with_capacity(n);
    for _ in 0..n {
        state = state.wrapping_mul(6364136223846793005).wrapping_add(1442695040888963407);
        out.push((state >> 33) as usize);
    }
    out
}

#[test]
fn a_new_shop_is_stocked_and_sorted() {
    let mut dice = Tape::new(vec![7, 0, 4, 1, 0]);
    let shop = Shop::new(&mut dice);
    assert_eq!(shop.gold, DEFAULT_GOLD);
    assert_eq!(shop.gold(), 10);
    assert_eq!(shop.team().count(), 0);
    assert_eq!(shop.team, Team::new());
    assert_eq!(
        shop.friends(),
        [
            Some(Friend::new(Species::Ant)),
            Some(Friend::new(Species::Fish)),
            Some(Friend::new(Species::Otter))
        ]
    );
    assert_eq!(shop.foods(), [Some(Food::Apple), Some(Food::Honey)]);
    assert_eq!(dice.left(), 0);
    assert!(shop.has_headroom());
    assert!(shop.is_settled());
}

#[test]
fn with_offers_sorts_the_offers() {
    let fish = Friend::new(Species::Fish);
    let ant = Friend::new(Species::Ant);
    let shop = Shop::with_offers(
        Team::new(),
        4,
        [Some(fish), None, Some(ant)],
        [Some(Food::Honey), Some(Food::Apple)],
    );
    assert_eq!(shop.friends(), [None, Some(ant), Some(fish)]);
    assert_eq!(shop.foods(), [Some(Food::Apple), Some(Food::Honey)]);
    assert_eq!(shop.gold, 4);
    assert!(!shop.is_settled());
    let other = Shop::with_offers(
        Team::new(),
        4,
        [Some(ant), Some(fish), None],
        [Some(Food::Apple), Some(Food::Honey)],
    );
    assert_eq!(shop, other);
}

#[test]
fn headroom_is_lost_near_the_largest_integer() {
    let mut shop = bare(Team::new(), usize::MAX - 6);
    assert!(shop.has_headroom());
    shop.gold = usize::MAX - 5;
    assert!(!shop.has_headroom());
    let strong = team_of(&[(2, grown(Species::Ant, usize::MAX - 5, 1, 0))]);
    assert!(!bare(strong, 0).has_headroom());
    let shelf =
        Shop::with_offers(Team::new(), 0, [Some(grown(Species::Ant, 1, 1, usize::MAX)), None, None], [
            None, None,
        ]);
    assert!(!shelf.has_headroom());
}

#[test]
fn an_otter_bought_favours_a_friend_before_it_joins() {
    let otter = Friend::new(Species::Otter);
    let fish = Friend::new(Species::Fish);
    let mut shop =
        Shop::with_offers(team_of(&[(1, fish)]), 10, [Some(otter), None, None], [None, None]);
    // buy a friend; the only offer; into slot 1, which is taken; the only friend to favour
    let mut dice = Tape::new(vec![0, 0, 1, 0]);
    assert!(!shop.step(&mut dice));
    assert_eq!(shop.gold, 7);
    assert_eq!(shop.team.get(0), None);
    assert_eq!(shop.team.get(1), Some(otter));
    assert_eq!(shop.team.get(2), Some(grown(Species::Fish, 4, 3, 0)));
    assert_eq!(shop.team.count(), 2);
    assert_eq!(shop.friends(), [None, None, None]);
    assert_eq!(dice.left(), 0);
}

#[test]
fn an_otter_bought_into_an_empty_team_favours_nobody() {
    let otter = Friend::new(Species::Otter);
    let mut shop = Shop::with_offers(Team::new(), 3, [None, Some(otter), None], [None, None]);
    let mut dice = Tape::new(vec![0, 0, 4, 2]);
    assert!(!shop.step(&mut dice));
    assert_eq!(shop.gold, 0);
    assert_eq!(shop.team.get(4), Some(otter));
    assert_eq!(dice.left(), 1);
}

#[test]
fn buy_friend_takes_the_rolled_offer() {
    let ant = Friend::new(Species::Ant);
    let fish = Friend::new(Species::Fish);
    let pig = Friend::new(Species::Pig);
    let mut shop =
        Shop::with_offers(Team::new(), 5, [Some(pig), Some(ant), Some(fish)], [None, None]);
    shop.buy_friend(1, 0, &mut Tape::new(vec![]));
    assert_eq!(shop.team.get(0), Some(fish));
    assert_eq!(shop.friends(), [None, Some(ant), Some(pig)]);
    assert_eq!(shop.gold, 2);
}

#[test]
fn buying_a_friend_fails_without_gold_offers_or_room() {
    let ant = Friend::new(Species::Ant);
    let mut poor = Shop::with_offers(Team::new(), 2, [Some(ant), None, None], [None, None]);
    let before = poor;
    let mut dice = Tape::new(vec![0, 1, 1]);
    assert!(poor.step(&mut dice));
    assert_eq!(poor, before);
    assert_eq!(dice.left(), 2);

    let mut empty = bare(Team::new(), 10);
    let before = empty;
    let mut dice = Tape::new(vec![0, 1, 1]);
    assert!(empty.step(&mut dice));
    assert_eq!(empty, before);
    assert_eq!(dice.left(), 2);

    let full = team_of(&[(0, ant), (1, ant), (2, ant), (3, ant), (4, ant)]);
    let mut crowded = Shop::with_offers(full, 10, [Some(ant), None, None], [None, None]);
    let before = crowded;
    let mut dice = Tape::new(vec![0, 0, 3, 1]);
    assert!(crowded.step(&mut dice));
    assert_eq!(crowded, before);
    assert_eq!(dice.left(), 1);
}

#[test]
fn selling_a_beaver_strengthens_two_friends() {
    let team = team_of(&[
        (0, grown(Species::Beaver, 2, 2, 2)),
        (1, Friend::new(Species::Fish)),
        (3, Friend::new(Species::Ant)),
        (4, Friend::new(Species::Pig)),
    ]);
    let mut shop = bare(team, 10);
    // sell; the first friend; then the third and the first of those that stay
    let mut dice = Tape::new(vec![2, 0, 2, 0]);
    assert!(!shop.step(&mut dice));
    assert_eq!(shop.gold, 12);
    assert_eq!(shop.team.get(0), None);
    assert_eq!(shop.team.get(1), Some(grown(Species::Fish, 5, 2, 0)));
    assert_eq!(shop.team.get(3), Some(Friend::new(Species::Ant)));
    assert_eq!(shop.team.get(4), Some(grown(Species::Pig, 3, 3, 0)));
    assert_eq!(dice.left(), 0);
}

#[test]
fn selling_a_lone_beaver_strengthens_nobody() {
    let mut shop = bare(team_of(&[(2, Friend::new(Species::Beaver))]), 0);
    let mut dice = Tape::new(vec![2, 0, 1]);
    assert!(!shop.step(&mut dice));
    assert_eq!(shop.gold, 1);
    assert_eq!(shop.team.count(), 0);
    assert_eq!(dice.left(), 1);
}

#[test]
fn selling_a_duck_strengthens_the_offers() {
    let ant = Friend::new(Species::Ant);
    let fish = Friend::new(Species::Fish);
    let mut shop = Shop::with_offers(
        team_of(&[(2, grown(Species::Duck, 3, 1, 4))]),
        10,
        [Some(fish), None, Some(ant)],
        [None, Some(Food::Apple)],
    );
    assert!(!shop.perform(ShopAction::SellFriend, &mut Tape::new(vec![0])));
    assert_eq!(shop.gold, 12);
    assert_eq!(shop.team.count(), 0);
    assert_eq!(
        shop.friends(),
        [None, Some(grown(Species::Ant, 3, 2, 0)), Some(grown(Species::Fish, 5, 2, 0))]
    );
    assert_eq!(shop.foods(), [None, Some(Food::Apple)]);
    assert!(!shop.is_settled());
}

#[test]
fn selling_a_pig_pays_twice() {
    let mut shop = bare(team_of(&[(1, grown(Species::Pig, 1, 3, 5))]), 10);
    assert!(!shop.step(&mut Tape::new(vec![2, 0])));
    assert_eq!(shop.gold, 16);
    let mut shop = bare(team_of(&[(1, Friend::new(Species::Pig))]), 10);
    shop.sell_friend(1, &mut Tape::new(vec![]));
    assert_eq!(shop.gold, 12);
    assert_eq!(shop.team.count(), 0);
}

#[test]
fn selling_another_species_pays_its_level() {
    let mut shop = bare(
        team_of(&[(0, grown(Species::Ant, 1, 2, 3)), (4, Friend::new(Species::Horse))]),
        0,
    );
    assert!(!shop.step(&mut Tape::new(vec![2, 0])));
    assert_eq!(shop.gold, 2);
    assert_eq!(shop.team.get(0), None);
    assert_eq!(shop.team.get(4), Some(Friend::new(Species::Horse)));
    shop.on_sold(4);
    assert_eq!(shop.team.get(4), Some(Friend::new(Species::Horse)));
}

#[test]
fn selling_from_an_empty_team_ends_the_round() {
    let mut shop = bare(Team::new(), 10);
    let before = shop;
    let mut dice = Tape::new(vec![2, 1]);
    assert!(shop.step(&mut dice));
    assert_eq!(shop, before);
    assert_eq!(dice.left(), 1);
}

#[test]
fn feeding_honey_and_an_apple() {
    let team = team_of(&[(0, Friend::new(Species::Fish)), (4, Friend::new(Species::Ant))]);
    let mut shop = Shop::with_offers(
        team,
        10,
        [None, None, None],
        [Some(Food::Honey), Some(Food::Apple)],
    );
    // feed; the second food on offer; the second friend
    assert!(!shop.step(&mut Tape::new(vec![3, 1, 1])));
    assert_eq!(shop.gold, 7);
    assert_eq!(shop.foods(), [None, Some(Food::Apple)]);
    let mut sweet = Friend::new(Species::Ant);
    sweet.modifier = Some(Modifier::Honey);
    assert_eq!(shop.team.get(4), Some(sweet));
    assert_eq!(shop.team.get(0), Some(Friend::new(Species::Fish)));
    // feed; the only food left; the first friend
    assert!(!shop.step(&mut Tape::new(vec![3, 0, 0])));
    assert_eq!(shop.gold, 4);
    assert_eq!(shop.foods(), [None, None]);
    assert_eq!(shop.team.get(0), Some(grown(Species::Fish, 4, 3, 0)));
    assert_eq!(shop.team.get(4), Some(sweet));
}

#[test]
fn feeding_fails_without_gold_food_or_friend() {
    let team = team_of(&[(0, Friend::new(Species::Fish))]);
    let mut poor = Shop::with_offers(team, 2, [None, None, None], [Some(Food::Apple), None]);
    let before = poor;
    assert!(poor.step(&mut Tape::new(vec![3, 0, 0])));
    assert_eq!(poor, before);

    let mut bare_shelf = bare(team, 10);
    let before = bare_shelf;
    assert!(bare_shelf.step(&mut Tape::new(vec![3, 0, 0])));
    assert_eq!(bare_shelf, before);

    let mut alone =
        Shop::with_offers(Team::new(), 10, [None, None, None], [Some(Food::Apple), None]);
    let before = alone;
    let mut dice = Tape::new(vec![3, 0, 0]);
    assert!(alone.step(&mut dice));
    assert_eq!(alone, before);
    assert_eq!(dice.left(), 1);
}

#[test]
fn buying_and_combining_a_fish() {
    let team = team_of(&[(0, Friend::new(Species::Otter)), (3, grown(Species::Fish, 5, 1, 1))]);
    let ant = Friend::new(Species::Ant);
    let mut shop = Shop::with_offers(
        team,
        10,
        [Some(Friend::new(Species::Fish)), Some(ant), None],
        [None, None],
    );
    let mut dice = Tape::new(vec![1, 0, 0]);
    assert!(!shop.step(&mut dice));
    assert_eq!(shop.gold, 7);
    assert_eq!(shop.team.get(3), Some(grown(Species::Fish, 6, 3, 2)));
    assert_eq!(shop.team.get(0), Some(Friend::new(Species::Otter)));
    assert_eq!(shop.team.count(), 2);
    assert_eq!(shop.friends(), [None, None, Some(ant)]);
    assert_eq!(dice.left(), 0);
}

#[test]
fn an_otter_combined_favours_another_friend() {
    let team = team_of(&[(1, grown(Species::Otter, 4, 4, 1)), (2, Friend::new(Species::Fish))]);
    let mut shop = Shop::with_offers(
        team,
        3,
        [Some(Friend::new(Species::Otter)), None, None],
        [None, None],
    );
    let mut dice = Tape::new(vec![1, 0, 0, 0]);
    assert!(!shop.step(&mut dice));
    assert_eq!(shop.gold, 0);
    assert_eq!(shop.team.get(1), Some(grown(Species::Otter, 5, 5, 2)));
    assert_eq!(shop.team.get(2), Some(grown(Species::Fish, 4, 3, 0)));
    assert_eq!(shop.friends(), [None, None, None]);
    assert_eq!(dice.left(), 0);
}

#[test]
fn a_lone_otter_combined_favours_nobody() {
    let team = team_of(&[(4, Friend::new(Species::Otter))]);
    let mut shop = Shop::with_offers(
        team,
        3,
        [Some(Friend::new(Species::Otter)), None, None],
        [None, None],
    );
    let mut dice = Tape::new(vec![1, 0, 0, 0]);
    assert!(!shop.step(&mut dice));
    assert_eq!(shop.team.get(4), Some(grown(Species::Otter, 3, 2, 1)));
    assert_eq!(dice.left(), 1);
}

#[test]
fn buying_and_combining_fails_without_gold_or_match() {
    let team = team_of(&[(3, Friend::new(Species::Fish))]);
    let mut poor =
        Shop::with_offers(team, 2, [Some(Friend::new(Species::Fish)), None, None], [None, None]);
    let before = poor;
    let mut dice = Tape::new(vec![1, 0, 0]);
    assert!(poor.step(&mut dice));
    assert_eq!(poor, before);
    assert_eq!(dice.left(), 2);

    let mut odd =
        Shop::with_offers(team, 9, [Some(Friend::new(Species::Ant)), None, None], [None, None]);
    let before = odd;
    let mut dice = Tape::new(vec![1, 0, 0]);
    assert!(odd.step(&mut dice));
    assert_eq!(odd, before);
    assert_eq!(dice.left(), 2);
}

#[test]
fn combining_without_a_pair_ends_the_round() {
    let team = team_of(&[(0, Friend::new(Species::Fish)), (1, Friend::new(Species::Ant))]);
    let mut shop = bare(team, 10);
    let before = shop;
    let mut dice = Tape::new(vec![4, 0, 0]);
    assert!(shop.step(&mut dice));
    assert_eq!(shop, before);
    assert_eq!(dice.left(), 2);
}

#[test]
fn combining_picks_the_slot_before_the_partner() {
    // three fish and two ants: every slot has a partner, fish have two
    let team = team_of(&[
        (0, grown(Species::Fish, 3, 2, 0)),
        (1, grown(Species::Ant, 1, 2, 0)),
        (2, grown(Species::Fish, 4, 2, 0)),
        (3, grown(Species::Ant, 9, 9, 1)),
        (4, grown(Species::Fish, 3, 8, 0)),
    ]);
    let mut shop = bare(team, 1);
    // combine; the fourth slot with a partner; its only partner
    assert!(!shop.step(&mut Tape::new(vec![4, 3, 0])));
    assert_eq!(shop.team.get(3), None);
    assert_eq!(shop.team.get(1), Some(grown(Species::Ant, 10, 10, 1)));
    assert_eq!(shop.gold, 1);
    // combine; the second of the three fish; the second of its partners
    assert!(!shop.step(&mut Tape::new(vec![4, 1, 1])));
    assert_eq!(shop.team.get(2), None);
    assert_eq!(shop.team.get(4), Some(grown(Species::Fish, 5, 9, 1)));
    assert_eq!(shop.team.get(0), Some(grown(Species::Fish, 3, 2, 0)));
    assert_eq!(shop.team.count(), 3);
}

#[test]
fn combine_friends_merges_into_the_slot() {
    let mut shop = bare(team_of(&[(2, grown(Species::Horse, 1, 2, 1))]), 10);
    shop.combine_friends(2, grown(Species::Horse, 7, 1, 3));
    assert_eq!(shop.team.get(2), Some(grown(Species::Horse, 8, 3, 2)));
    assert_eq!(shop.gold, 10);
}

#[test]
fn a_settled_shop_is_not_rerolled() {
    let mut shop = Shop::new(&mut Tape::new(vec![7, 0, 4, 1, 0]));
    let before = shop;
    let mut dice = Tape::new(vec![5, 1, 1, 1, 1, 1]);
    assert!(shop.step(&mut dice));
    assert_eq!(shop, before);
    assert_eq!(dice.left(), 5);
}

#[test]
fn a_shop_with_a_gap_is_rerolled_for_one_gold() {
    let ant = Friend::new(Species::Ant);
    let mut shop = Shop::with_offers(
        Team::new(),
        1,
        [Some(ant), Some(ant), Some(ant)],
        [Some(Food::Apple), None],
    );
    let mut dice = Tape::new(vec![5, 8, 8, 2, 1, 1, 3]);
    assert!(!shop.step(&mut dice));
    assert_eq!(shop.gold, 0);
    assert_eq!(
        shop.friends(),
        [
            Some(Friend::new(Species::Cricket)),
            Some(Friend::new(Species::Pig)),
            Some(Friend::new(Species::Pig))
        ]
    );
    assert_eq!(shop.foods(), [Some(Food::Honey), Some(Food::Honey)]);
    assert_eq!(dice.left(), 1);
    assert!(shop.is_settled());
}

#[test]
fn a_shop_with_a_strengthened_offer_is_rerolled() {
    let ant = Friend::new(Species::Ant);
    let mut shop = Shop::with_offers(
        Team::new(),
        4,
        [Some(ant), Some(ant.buff(1, 0)), Some(ant)],
        [Some(Food::Apple), Some(Food::Apple)],
    );
    assert!(!shop.is_settled());
    assert!(!shop.step(&mut Tape::new(vec![5, 0, 0, 0, 0, 0])));
    assert_eq!(shop.gold, 3);
    assert_eq!(shop.friends(), [Some(ant), Some(ant), Some(ant)]);
    assert!(shop.is_settled());
}

#[test]
fn reroll_replaces_every_offer_and_costs_nothing_itself() {
    let mut shop = bare(Team::new(), 6);
    shop.reroll(&mut Tape::new(vec![4, 4, 1, 0, 1]));
    assert_eq!(shop.gold, 6);
    assert_eq!(
        shop.friends(),
        [
            Some(Friend::new(Species::Beaver)),
            Some(Friend::new(Species::Fish)),
            Some(Friend::new(Species::Fish))
        ]
    );
    assert_eq!(shop.foods(), [Some(Food::Apple), Some(Food::Honey)]);
}

#[test]
fn random_offers_are_picked_by_rank() {
    let ant = Friend::new(Species::Ant);
    let shop = Shop::with_offers(
        Team::new(),
        0,
        [Some(ant), None, Some(ant)],
        [None, Some(Food::Honey)],
    );
    assert_eq!(shop.friends(), [None, Some(ant), Some(ant)]);
    assert_eq!(shop.random_friend(&mut Tape::new(vec![0])), Some(1));
    assert_eq!(shop.random_friend(&mut Tape::new(vec![1])), Some(2));
    assert_eq!(shop.random_food(&mut Tape::new(vec![5])), Some(1));
    let empty = bare(Team::new(), 0);
    assert_eq!(empty.random_friend(&mut Tape::new(vec![1])), None);
    assert_eq!(empty.random_food(&mut Tape::new(vec![1])), None);
}

#[test]
fn the_same_rolls_give_the_same_round() {
    let rolls = numbers(7, 400);
    let mut first_dice = Tape::new(rolls.clone());
    let mut second_dice = Tape::new(rolls);
    let mut first = Shop::new(&mut first_dice);
    let mut second = Shop::new(&mut second_dice);
    assert_eq!(first, second);
    for _ in 0..60 {
        let a = first.step(&mut first_dice);
        let b = second.step(&mut second_dice);
        assert_eq!(a, b);
        assert_eq!(first, second);
        assert_eq!(first_dice.left(), second_dice.left());
    }
}

#[test]
fn long_rounds_keep_the_shop_in_shape() {
    for seed in 0..40u64 {
        let mut dice = Tape::new(numbers(seed, 3000));
        let mut shop = Shop::new(&mut dice);
        for _ in 0..300 {
            assert!(shop.has_headroom());
            let before = shop;
            let over = shop.step(&mut dice);
            if over {
                assert_eq!(shop, before);
            }
            assert!(shop.gold + 3 >= before.gold);
            assert!(shop.gold <= before.gold + 6);
            assert!(shop.team.count() <= 5);
            let sorted = Shop::with_offers(shop.team, shop.gold, shop.friends(), shop.foods());
            assert_eq!(shop, sorted);
        }
    }
}
