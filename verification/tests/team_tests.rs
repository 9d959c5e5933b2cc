use pet_shop::{Friend, Species, Tape, Team};

fn lineup(slots: [Option<Species>; 5]) -> Team {
    let mut team = Team::new();
    for (i, slot) in slots.iter().enumerate() {
        team.set(i, slot.map(Friend::new));
    }
    team
}

fn species_of(team: &Team) -> Vec<Option<Species>> {
    (0..5).map(|i| team.get(i).map(|f| f.species)).collect()
}

#[test]
fn a_new_team_is_empty() {
    let team = Team::new();
    assert_eq!(team.count(), 0);
    assert_eq!(species_of(&team), vec![None; 5]);
    let mut dice = Tape::new(vec![3]);
    assert_eq!(team.random_friend(&mut dice), None);
    assert_eq!(team.random_friends(2, &mut dice), Vec::<usize>::new());
    assert_eq!(dice.left(), 1);
}

#[test]
fn summon_take_and_count() {
    let mut team = Team::new();
    let fish = Friend::new(Species::Fish);
    team.summon(fish, 3);
    assert_eq!(team.count(), 1);
    assert_eq!(team.get(3), Some(fish));
    assert_eq!(team.take(3), Some(fish));
    assert_eq!(team.take(3), None);
    assert_eq!(team.count(), 0);
}

#[test]
fn make_space_at_a_free_slot_moves_nobody() {
    let mut team = lineup([Some(Species::Ant), None, Some(Species::Fish), None, None]);
    let before = team;
    assert!(team.make_space_at(1));
    assert_eq!(team, before);
}

#[test]
fn make_space_moves_friends_towards_the_next_gap() {
    let mut team =
        lineup([Some(Species::Ant), Some(Species::Beaver), None, Some(Species::Fish), None]);
    assert!(team.make_space_at(0));
    assert_eq!(
        species_of(&team),
        vec![None, Some(Species::Ant), Some(Species::Beaver), Some(Species::Fish), None]
    );
}

#[test]
fn make_space_moves_friends_back_when_no_gap_follows() {
    let mut team = lineup([
        Some(Species::Ant),
        None,
        Some(Species::Beaver),
        Some(Species::Fish),
        Some(Species::Pig),
    ]);
    assert!(team.make_space_at(3));
    assert_eq!(
        species_of(&team),
        vec![
            Some(Species::Ant),
            Some(Species::Beaver),
            Some(Species::Fish),
            None,
            Some(Species::Pig)
        ]
    );
    assert_eq!(team.count(), 4);
}

#[test]
fn make_space_takes_the_last_gap_before_the_slot() {
    let mut team =
        lineup([None, Some(Species::Ant), None, Some(Species::Beaver), Some(Species::Fish)]);
    assert!(team.make_space_at(4));
    assert_eq!(
        species_of(&team),
        vec![None, Some(Species::Ant), Some(Species::Beaver), Some(Species::Fish), None]
    );
}

#[test]
fn a_full_team_has_no_space_and_stays_as_it_is() {
    let mut team = lineup([
        Some(Species::Ant),
        Some(Species::Duck),
        Some(Species::Beaver),
        Some(Species::Fish),
        Some(Species::Pig),
    ]);
    let before = team;
    for j in 0..5 {
        assert!(!team.make_space_at(j));
        assert_eq!(team, before);
    }
}

#[test]
fn random_friends_are_different_friends() {
    let team = lineup([Some(Species::Ant), None, Some(Species::Fish), None, Some(Species::Pig)]);
    assert_eq!(team.random_friend(&mut Tape::new(vec![1])), Some(2));
    assert_eq!(team.random_friends(2, &mut Tape::new(vec![1, 1])), vec![2, 4]);
    assert_eq!(team.random_friends(2, &mut Tape::new(vec![2, 0])), vec![4, 0]);
    assert_eq!(team.random_friends(0, &mut Tape::new(vec![2, 0])), Vec::<usize>::new());
    let mut dice = Tape::new(vec![0, 0, 0, 0, 0]);
    assert_eq!(team.random_friends(5, &mut dice), vec![0, 2, 4]);
    assert_eq!(dice.left(), 2);
}

#[test]
fn pairings_mark_friends_of_one_species_and_never_a_slot_with_itself() {
    let team = lineup([
        Some(Species::Fish),
        Some(Species::Ant),
        Some(Species::Fish),
        None,
        Some(Species::Fish),
    ]);
    let table = team.pairings();
    for i in 0..5 {
        for j in 0..5 {
            let fishes = [0, 2, 4];
            assert_eq!(table[i][j], i != j && fishes.contains(&i) && fishes.contains(&j));
        }
    }
    assert_eq!(
        team.partners_of(&Some(Friend::new(Species::Ant)), 5),
        [false, true, false, false, false]
    );
    assert_eq!(team.partners_of(&None, 5), [false; 5]);
}

#[test]
fn buffing_the_picked_slots() {
    let mut team = lineup([Some(Species::Ant), None, Some(Species::Fish), None, None]);
    team.buff_picked(&vec![2, 1], 3, 1);
    assert_eq!(team.get(0), Some(Friend::new(Species::Ant)));
    assert_eq!(team.get(1), None);
    assert_eq!(team.get(2), Some(Friend::new(Species::Fish).buff(3, 1)));
}
