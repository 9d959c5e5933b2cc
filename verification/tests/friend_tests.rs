use pet_shop::{sort_slots, Food, Friend, Modifier, ShopAction, Species, Tape};

fn made(species: Species, health: usize, attack: usize, exp: usize) -> Friend {
    Friend { species, health, attack, exp, modifier: None }
}

#[test]
fn fresh_friends_have_the_strength_of_their_species() {
    assert_eq!(Friend::new(Species::Ant), made(Species::Ant, 1, 2, 0));
    assert_eq!(Friend::new(Species::Beaver), made(Species::Beaver, 2, 2, 0));
    assert_eq!(Friend::new(Species::Cricket), made(Species::Cricket, 2, 1, 0));
    assert_eq!(Friend::new(Species::Duck), made(Species::Duck, 3, 1, 0));
    assert_eq!(Friend::new(Species::Fish), made(Species::Fish, 3, 2, 0));
    assert_eq!(Friend::new(Species::Horse), made(Species::Horse, 1, 2, 0));
    assert_eq!(Friend::new(Species::Mosquito), made(Species::Mosquito, 2, 2, 0));
    assert_eq!(Friend::new(Species::Otter), made(Species::Otter, 2, 1, 0));
    assert_eq!(Friend::new(Species::Pig), made(Species::Pig, 1, 3, 0));
    assert!(Friend::new(Species::Pig).has_base_stats());
    assert!(!made(Species::Pig, 2, 3, 0).has_base_stats());
    assert!(!made(Species::Pig, 1, 4, 0).has_base_stats());
}

#[test]
fn level_follows_the_experience() {
    let levels: Vec<usize> = (0..8).map(|exp| made(Species::Ant, 1, 2, exp).level()).collect();
    assert_eq!(levels, vec![1, 1, 2, 2, 2, 3, 3, 3]);
    assert_eq!(made(Species::Ant, 1, 2, usize::MAX).level(), 3);
}

#[test]
fn absorbing_takes_the_larger_of_each_and_adds_one() {
    let mut honeyed = made(Species::Fish, 3, 7, 1);
    honeyed.modifier = Some(Modifier::Honey);
    let merged = honeyed.absorb(made(Species::Fish, 5, 1, 4));
    assert_eq!(merged.health, 6);
    assert_eq!(merged.attack, 8);
    assert_eq!(merged.exp, 2);
    assert_eq!(merged.species, Species::Fish);
    assert_eq!(merged.modifier, Some(Modifier::Honey));
    let twins = made(Species::Ant, 4, 4, 0).absorb(made(Species::Ant, 4, 4, 0));
    assert_eq!(twins, made(Species::Ant, 5, 5, 1));
}

#[test]
fn feeding_an_apple_and_honey() {
    let fish = Friend::new(Species::Fish);
    assert_eq!(fish.feed(Food::Apple), made(Species::Fish, 4, 3, 0));
    let sweet = fish.feed(Food::Honey);
    assert_eq!(sweet.modifier, Some(Modifier::Honey));
    assert_eq!((sweet.health, sweet.attack, sweet.exp), (3, 2, 0));
    assert_eq!(sweet.feed(Food::Honey), sweet);
    assert_eq!(fish.buff(2, 0), made(Species::Fish, 5, 2, 0));
}

#[test]
fn each_face_names_one_species() {
    let all = [
        Species::Ant,
        Species::Beaver,
        Species::Cricket,
        Species::Duck,
        Species::Fish,
        Species::Horse,
        Species::Mosquito,
        Species::Otter,
        Species::Pig,
    ];
    for (i, species) in all.iter().enumerate() {
        assert_eq!(Species::sample(&mut Tape::new(vec![i])), *species);
        assert_eq!(Species::from_index(i), *species);
        assert_eq!(species.index(), i);
    }
    assert_eq!(Species::sample(&mut Tape::new(vec![9])), Species::Ant);
}

#[test]
fn each_face_names_one_food_and_one_action() {
    assert_eq!(Food::sample(&mut Tape::new(vec![0])), Food::Apple);
    assert_eq!(Food::sample(&mut Tape::new(vec![1])), Food::Honey);
    let actions = [
        ShopAction::BuyFriend,
        ShopAction::BuyCombineFriend,
        ShopAction::SellFriend,
        ShopAction::BuyFood,
        ShopAction::CombineFriends,
        ShopAction::Reroll,
    ];
    for (i, action) in actions.iter().enumerate() {
        assert_eq!(ShopAction::sample(&mut Tape::new(vec![i])), *action);
    }
}

#[test]
fn sorting_puts_empty_slots_first_and_friends_by_species_then_strength() {
    let ant = Friend::new(Species::Ant);
    let strong_ant = made(Species::Ant, 1, 3, 0);
    let old_ant = made(Species::Ant, 1, 2, 1);
    let mut sweet_ant = ant;
    sweet_ant.modifier = Some(Modifier::Honey);
    let pig = Friend::new(Species::Pig);
    let healthy_ant = made(Species::Ant, 2, 1, 0);
    let mut row = [
        Some(pig),
        Some(healthy_ant),
        Some(strong_ant),
        None,
        Some(sweet_ant),
        Some(old_ant),
        Some(ant),
        None,
    ];
    sort_slots(&mut row);
    assert_eq!(
        row,
        [
            None,
            None,
            Some(ant),
            Some(sweet_ant),
            Some(old_ant),
            Some(strong_ant),
            Some(healthy_ant),
            Some(pig)
        ]
    );
    let again = row;
    sort_slots(&mut row);
    assert_eq!(row, again);
}

#[test]
fn sorting_foods() {
    let mut row = [Some(Food::Honey), Some(Food::Apple), None, Some(Food::Apple)];
    sort_slots(&mut row);
    assert_eq!(row, [None, Some(Food::Apple), Some(Food::Apple), Some(Food::Honey)]);
    let mut none: [Option<Food>; 0] = [];
    sort_slots(&mut none);
    let mut same = [Some(Food::Apple), None];
    let mut other = [None, Some(Food::Apple)];
    sort_slots(&mut same);
    sort_slots(&mut other);
    assert_eq!(same, other);
}
