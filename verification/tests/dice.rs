use yatzy::{Dice, DiceReplaceError, NewDiceError};

#[test]
fn new_sorts_the_dice() {
    let dice = Dice::new([6, 6, 5, 1, 1]).unwrap();
    assert_eq!(dice.to_array(), [1, 1, 5, 6, 6]);
    assert!(dice.is_canonical());
}

#[test]
fn new_rejects_a_zero() {
    assert_eq!(Dice::new([0, 1, 2, 3, 4]), Err(NewDiceError::InvalidDieValue));
}

#[test]
fn new_rejects_a_seven() {
    assert_eq!(Dice::new([1, 2, 3, 4, 7]), Err(NewDiceError::InvalidDieValue));
}

#[test]
fn new_twice_is_new_once() {
    for a in 1..=6u8 {
        for b in 1..=6u8 {
            for c in 1..=6u8 {
                for d in 1..=6u8 {
                    for e in 1..=6u8 {
                        let once = Dice::new([a, b, c, d, e]).unwrap();
                        let twice = Dice::new(once.to_array()).unwrap();
                        assert_eq!(once, twice);
                    }
                }
            }
        }
    }
}

#[test]
fn new_raw_keeps_the_order() {
    let dice = Dice::new_raw([5, 4, 3, 2, 1]);
    assert_eq!(dice.to_array(), [5, 4, 3, 2, 1]);
    assert!(!dice.is_canonical());
    assert_eq!(dice.get(0), 5);
    assert_eq!(dice.get(4), 1);
}

#[test]
fn from_slice_keeps_the_dice() {
    let dice = Dice::from_slice(&[1, 2, 2, 3, 6]);
    assert_eq!(dice.to_array(), [1, 2, 2, 3, 6]);
}

#[test]
fn replace_swaps_and_sorts() {
    let mut dice = Dice::new([1, 2, 3, 4, 5]).unwrap();
    assert_eq!(dice.replace(&[1, 3], &[6, 2]), Ok(()));
    assert_eq!(dice.to_array(), [2, 2, 4, 5, 6]);
}

#[test]
fn replace_takes_each_die_once() {
    let mut dice = Dice::new([3, 3, 4, 5, 6]).unwrap();
    assert_eq!(dice.replace(&[3, 3], &[1, 1]), Ok(()));
    assert_eq!(dice.to_array(), [1, 1, 4, 5, 6]);
    let mut dice = Dice::new([3, 4, 4, 5, 6]).unwrap();
    assert_eq!(dice.replace(&[3, 3], &[1, 1]), Err(DiceReplaceError::InvalidDice));
    assert_eq!(dice.to_array(), [3, 4, 4, 5, 6]);
}

#[test]
fn replace_of_nothing_changes_nothing() {
    let mut dice = Dice::new([2, 2, 4, 5, 6]).unwrap();
    assert_eq!(dice.replace(&[], &[]), Ok(()));
    assert_eq!(dice.to_array(), [2, 2, 4, 5, 6]);
}

#[test]
fn replace_of_all_five() {
    let mut dice = Dice::new([1, 1, 1, 1, 1]).unwrap();
    assert_eq!(dice.replace(&[1, 1, 1, 1, 1], &[6, 5, 4, 3, 2]), Ok(()));
    assert_eq!(dice.to_array(), [2, 3, 4, 5, 6]);
}

#[test]
fn replace_refuses_dice_not_in_hand() {
    let mut dice = Dice::new([1, 2, 3, 4, 5]).unwrap();
    assert_eq!(dice.replace(&[6], &[1]), Err(DiceReplaceError::InvalidDice));
    assert_eq!(dice.to_array(), [1, 2, 3, 4, 5]);
    assert_eq!(dice.replace(&[0], &[1]), Err(DiceReplaceError::InvalidDice));
    assert_eq!(dice.replace(&[1, 2, 3, 4, 5, 5], &[1, 1, 1, 1, 1, 1]), Err(DiceReplaceError::InvalidDice));
}

#[test]
fn holds_counts_each_die() {
    let dice = Dice::new([2, 2, 3, 5, 5]).unwrap();
    assert!(dice.holds(&[2, 2]));
    assert!(dice.holds(&[5, 3, 2]));
    assert!(!dice.holds(&[2, 2, 2]));
    assert!(!dice.holds(&[1]));
    assert!(dice.holds(&[]));
}

#[test]
fn reroll_keeps_the_other_dice() {
    let mut rng = rand::rng();
    for _ in 0..200 {
        let mut dice = Dice::new([1, 2, 3, 4, 6]).unwrap();
        assert_eq!(dice.reroll(&[1, 2], &mut rng), Ok(()));
        assert!(dice.is_canonical());
        assert!(dice.holds(&[3, 4, 6]));
    }
}

#[test]
fn reroll_refuses_dice_not_in_hand() {
    let mut rng = rand::rng();
    let mut dice = Dice::new([1, 2, 3, 4, 6]).unwrap();
    assert_eq!(dice.reroll(&[5], &mut rng), Err(DiceReplaceError::InvalidDice));
    assert_eq!(dice.to_array(), [1, 2, 3, 4, 6]);
}

#[test]
fn random_dice_are_canonical() {
    let mut rng = rand::rng();
    let mut seen = [false; 7];
    for _ in 0..500 {
        let mut dice = Dice::new_random(&mut rng);
        assert!(dice.is_canonical());
        dice.reroll_all(&mut rng);
        assert!(dice.is_canonical());
        for die in dice.to_array() {
            seen[die as usize] = true;
        }
    }
    assert!(!seen[0]);
    assert!(seen[1] && seen[2] && seen[3] && seen[4] && seen[5] && seen[6]);
}

#[test]
fn errors_have_messages() {
    assert_eq!(DiceReplaceError::InvalidDice.message(), "selected dice are not in hand");
    assert_eq!(NewDiceError::InvalidDieValue.message(), "invalid die value");
}
