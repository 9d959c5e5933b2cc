use pet_shop::{Food, Friend, Shop, Species, Tape, Team};

fn friend(species: Species, health: usize, attack: usize, exp: usize) -> Friend {
    Friend { species, health, attack, exp, modifier: None }
}

#[test]
fn buying_the_only_offer_into_an_empty_team() {
    let beaver = Friend::new(Species::Beaver);
    assert_eq!(beaver, friend(Species::Beaver, 2, 2, 0));
    assert_eq!(beaver.level(), 1);
    let mut shop = Shop::with_offers(Team::new(), 10, [Some(beaver), None, None], [None, None]);
    assert_eq!(shop.friends(), [None, None, Some(beaver)]);
    // action 0 buys a friend; one offer to pick from; slot 2 of the team
    let mut dice = Tape::new(vec![0, 0, 2]);
    assert!(shop.has_headroom());
    let over = shop.step(&mut dice);
    assert!(!over);
    assert_eq!(shop.gold, 7);
    assert_eq!(shop.team.get(2), Some(beaver));
    assert_eq!(shop.team.count(), 1);
    assert_eq!(shop.friends(), [None, None, None]);
    assert_eq!(shop.foods(), [None, None]);
    assert_eq!(dice.left(), 0);
}

#[test]
fn combining_two_friends_of_one_species() {
    let mut team = Team::new();
    team.set(0, Some(friend(Species::Fish, 3, 2, 0)));
    team.set(2, Some(friend(Species::Fish, 5, 1, 0)));
    let mut shop = Shop::with_offers(team, 10, [None, None, None], [None, None]);
    // action 4 combines; first of the two slots with a partner; its only partner
    let mut dice = Tape::new(vec![4, 0, 0]);
    let over = shop.step(&mut dice);
    assert!(!over);
    assert_eq!(shop.team.get(0), None);
    assert_eq!(shop.team.get(2), Some(friend(Species::Fish, 6, 3, 1)));
    assert_eq!(shop.team.count(), 1);
    assert_eq!(shop.gold, 10);
}

#[test]
fn combining_picks_the_second_slot_when_rolled() {
    let mut team = Team::new();
    team.set(0, Some(friend(Species::Fish, 3, 2, 0)));
    team.set(2, Some(friend(Species::Fish, 5, 1, 4)));
    let mut shop = Shop::with_offers(team, 10, [None, None, None], [None, None]);
    let mut dice = Tape::new(vec![4, 1, 0]);
    let over = shop.step(&mut dice);
    assert!(!over);
    assert_eq!(shop.team.get(2), None);
    assert_eq!(shop.team.get(0), Some(friend(Species::Fish, 6, 3, 1)));
}

#[test]
fn reroll_without_gold_ends_the_round() {
    let ant = Friend::new(Species::Ant);
    let mut team = Team::new();
    team.set(1, Some(ant));
    let mut shop = Shop::with_offers(team, 0, [Some(ant), None, None], [Some(Food::Honey), None]);
    let before = shop;
    // action 5 rerolls
    let mut dice = Tape::new(vec![5, 3, 3, 3, 1, 1]);
    let over = shop.step(&mut dice);
    assert!(over);
    assert_eq!(shop, before);
    assert_eq!(dice.left(), 5);
}
