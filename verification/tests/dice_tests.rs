use pet_shop::{pick_marked, pick_one, pick_pair, Dice, Tape};

#[test]
fn tape_replays_values_modulo_the_bound() {
    let mut dice = Tape::new(vec![7, 13, 2]);
    assert_eq!(dice.left(), 3);
    assert_eq!(dice.roll(5), 2);
    assert_eq!(dice.roll(4), 1);
    assert_eq!(dice.roll(3), 2);
    assert_eq!(dice.left(), 0);
}

#[test]
fn tape_shows_zero_once_used_up() {
    let mut dice = Tape::new(vec![4]);
    assert_eq!(dice.roll(6), 4);
    assert_eq!(dice.roll(6), 0);
    assert_eq!(dice.roll(1), 0);
    assert_eq!(dice.left(), 0);
}

#[test]
fn pick_marked_takes_the_position_of_the_rolled_rank() {
    let marks = [false, true, false, true, true];
    assert_eq!(pick_marked(&mut Tape::new(vec![0]), &marks), Some(1));
    assert_eq!(pick_marked(&mut Tape::new(vec![1]), &marks), Some(3));
    assert_eq!(pick_marked(&mut Tape::new(vec![2]), &marks), Some(4));
    assert_eq!(pick_marked(&mut Tape::new(vec![4]), &marks), Some(3));
}

#[test]
fn pick_marked_answers_each_face_with_another_position() {
    let marks = [true, false, true, true, false, true];
    let mut seen = vec![];
    for face in 0..4 {
        let pick = pick_marked(&mut Tape::new(vec![face]), &marks).unwrap();
        assert!(marks[pick]);
        assert!(!seen.contains(&pick));
        seen.push(pick);
    }
    assert_eq!(seen, vec![0, 2, 3, 5]);
}

#[test]
fn pick_marked_without_marks_rolls_nothing() {
    let mut dice = Tape::new(vec![1]);
    assert_eq!(pick_marked(&mut dice, &[false, false, false]), None);
    assert_eq!(pick_marked(&mut dice, &[]), None);
    assert_eq!(dice.left(), 1);
}

#[test]
fn pick_one_picks_among_the_occupied() {
    let slots: [Option<u8>; 4] = [None, Some(1), None, Some(2)];
    assert_eq!(pick_one(&mut Tape::new(vec![0]), &slots), Some(1));
    assert_eq!(pick_one(&mut Tape::new(vec![1]), &slots), Some(3));
    let empty: [Option<u8>; 2] = [None, None];
    let mut dice = Tape::new(vec![1]);
    assert_eq!(pick_one(&mut dice, &empty), None);
    assert_eq!(dice.left(), 1);
}

#[test]
fn pick_pair_picks_the_row_first_whatever_it_holds() {
    let table = [[true, true, true], [false, false, false], [false, true, false]];
    // two rows hold a mark: the second roll value names the row with one mark
    assert_eq!(pick_pair(&mut Tape::new(vec![1, 0]), &table), Some((2, 1)));
    assert_eq!(pick_pair(&mut Tape::new(vec![0, 2]), &table), Some((0, 2)));
    assert_eq!(pick_pair(&mut Tape::new(vec![0, 0]), &table), Some((0, 0)));
    let mut dice = Tape::new(vec![1, 0, 5]);
    assert_eq!(pick_pair(&mut dice, &table), Some((2, 1)));
    assert_eq!(dice.left(), 1);
}

#[test]
fn pick_pair_without_marks_rolls_nothing() {
    let table = [[false, false], [false, false], [false, false]];
    let mut dice = Tape::new(vec![1, 1]);
    assert_eq!(pick_pair(&mut dice, &table), None);
    assert_eq!(dice.left(), 2);
}
